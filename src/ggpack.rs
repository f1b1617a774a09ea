//! The archive: its directory of entries, selecting entries by name or
//! pattern, and what extracting an entry yields.
use vstd::prelude::*;
use vstd::utf8::encode_utf8;

use crate::decoder::{decode_data, decode_yack_data, decoded, general_keys_fit, script_decoded};
use crate::directory::{container, directory_files, files_result, GGValue, Value};
use crate::easy_br::{fits, read_u32_le, u32_le};
use crate::error::DinkyError;
use crate::keys::Keys;
use crate::number::chars_of;
use crate::yack::{decompiled, parse_yack, strings_view};

verus! {

/// An archive entry: its name, byte size and absolute offset.
#[derive(Debug, PartialEq)]
pub struct GGFile {
    pub filename: String,
    pub size: usize,
    pub offset: u64,
}

/// The mathematical content of an archive entry.
pub struct FileView {
    pub name: Seq<char>,
    pub size: nat,
    pub offset: nat,
}

impl View for GGFile {
    type V = FileView;

    open spec fn view(&self) -> FileView {
        FileView { name: self.filename@, size: self.size as nat, offset: self.offset as nat }
    }
}

pub open spec fn files_view(v: Seq<GGFile>) -> Seq<FileView> {
    v.map_values(|f: GGFile| f@)
}

/// The names of the entries, in order.
pub open spec fn names_of(fs: Seq<FileView>) -> Seq<Seq<char>> {
    Seq::new(fs.len(), |i: int| fs[i].name)
}

/// Whether the name matches the pattern: `*` matches any run of
/// characters, `?` any one character, and every other character itself.
pub open spec fn glob_match(p: Seq<char>, s: Seq<char>) -> bool
    decreases p.len(), s.len(),
{
    if p.len() == 0 {
        s.len() == 0
    } else if p[0] == '*' {
        glob_match(p.skip(1), s) || (s.len() > 0 && glob_match(p, s.skip(1)))
    } else if s.len() == 0 {
        false
    } else if p[0] == '?' || p[0] == s[0] {
        glob_match(p.skip(1), s.skip(1))
    } else {
        false
    }
}

fn glob_at(p: &Vec<char>, i: usize, s: &Vec<char>, j: usize) -> (r: bool)
    requires
        i <= p@.len(),
        j <= s@.len(),
    ensures
        r == glob_match(p@.skip(i as int), s@.skip(j as int)),
    decreases p@.len() - i, s@.len() - j,
{
    let ghost ps = p@.skip(i as int);
    let ghost ss = s@.skip(j as int);
    if i < p.len() {
        assert(ps.skip(1) =~= p@.skip(i + 1));
    }
    if j < s.len() {
        assert(ss.skip(1) =~= s@.skip(j + 1));
    }
    if i == p.len() {
        j == s.len()
    } else if p[i] == '*' {
        glob_at(p, i + 1, s, j) || (j < s.len() && glob_at(p, i, s, j + 1))
    } else if j == s.len() {
        false
    } else if p[i] == '?' || p[i] == s[j] {
        glob_at(p, i + 1, s, j + 1)
    } else {
        false
    }
}

/// Whether `name` matches the glob `pattern`.
pub fn glob_matches(pattern: &str, name: &str) -> (r: bool)
    ensures
        r == glob_match(pattern@, name@),
{
    let p = chars_of(pattern);
    let s = chars_of(name);
    assert(p@.skip(0) =~= p@);
    assert(s@.skip(0) =~= s@);
    glob_at(&p, 0, &s, 0)
}

/// Whether the pattern holds no wildcard.
pub open spec fn is_literal(p: Seq<char>) -> bool {
    forall|i: int| 0 <= i < p.len() ==> #[trigger] p[i] != '*' && p[i] != '?'
}

proof fn lemma_literal_match(p: Seq<char>, s: Seq<char>)
    requires
        is_literal(p),
    ensures
        glob_match(p, s) <==> p == s,
    decreases p.len(), s.len(),
{
    if p.len() == 0 {
        if s.len() > 0 {
            assert(p.len() != s.len());
        } else {
            assert(p =~= s);
        }
    } else if s.len() == 0 {
        assert(p.len() != s.len());
    } else {
        assert(p[0] != '*' && p[0] != '?');
        assert(is_literal(p.skip(1))) by {
            assert forall|i: int| 0 <= i < p.skip(1).len() implies #[trigger] p.skip(1)[i] != '*'
                && p.skip(1)[i] != '?' by {
                assert(p.skip(1)[i] == p[i + 1]);
            }
        }
        lemma_literal_match(p.skip(1), s.skip(1));
        assert(p =~= seq![p[0]] + p.skip(1));
        assert(s =~= seq![s[0]] + s.skip(1));
        if p == s {
            assert(p.skip(1) =~= s.skip(1));
        }
        if p[0] == s[0] && p.skip(1) == s.skip(1) {
            assert(p =~= s);
        }
    }
}

/// A pattern made of `*` and a literal suffix selects exactly the names
/// that end with that suffix.
pub proof fn lemma_star_suffix(suffix: Seq<char>, name: Seq<char>)
    requires
        is_literal(suffix),
    ensures
        glob_match(seq!['*'] + suffix, name) <==> ends_with(name, suffix),
    decreases name.len(),
{
    let p = seq!['*'] + suffix;
    assert(p.skip(1) =~= suffix);
    assert(p[0] == '*');
    lemma_literal_match(suffix, name);
    let n = name.len();
    let k = suffix.len();
    if n == k {
        assert(name.skip(0) =~= name);
    }
    if n > 0 {
        lemma_star_suffix(suffix, name.skip(1));
        if n > k {
            assert(name.skip(n - k) =~= name.skip(1).skip(n - 1 - k));
            if name == suffix {
                assert(name.len() == k);
            }
        }
        if n <= k {
            assert(!ends_with(name.skip(1), suffix));
        }
    }
}

/// The entries whose names match the pattern, in order.
pub open spec fn matching(fs: Seq<FileView>, pattern: Seq<char>) -> Seq<FileView>
    decreases fs.len(),
{
    if fs.len() == 0 {
        Seq::empty()
    } else {
        let r = matching(fs.drop_last(), pattern);
        if glob_match(pattern, fs.last().name) {
            r.push(fs.last())
        } else {
            r
        }
    }
}

fn copy_file(f: &GGFile) -> (r: GGFile)
    ensures
        r@ == f@,
{
    GGFile { filename: f.filename.clone(), size: f.size, offset: f.offset }
}

/// The entries whose names match `pattern` (an exact name matches itself).
/// Fails with `NotFound` when none does.
pub fn select_files(files: &Vec<GGFile>, pattern: &str) -> (r: Result<Vec<GGFile>, DinkyError>)
    ensures
        matching(files_view(files@), pattern@).len() == 0 ==> r == Err::<Vec<GGFile>, DinkyError>(
            DinkyError::NotFound,
        ),
        matching(files_view(files@), pattern@).len() > 0 ==> (r matches Ok(v) && files_view(v@)
            == matching(files_view(files@), pattern@)),
{
    let ghost fv = files_view(files@);
    let mut out: Vec<GGFile> = Vec::new();
    let mut i: usize = 0;
    assert(fv.take(0) =~= Seq::<FileView>::empty());
    assert(files_view(out@) =~= Seq::<FileView>::empty());
    while i < files.len()
        invariant
            fv == files_view(files@),
            i <= files@.len(),
            files_view(out@) == matching(fv.take(i as int), pattern@),
        decreases files@.len() - i,
    {
        assert(fv.take(i + 1).drop_last() =~= fv.take(i as int));
        if glob_matches(pattern, files[i].filename.as_str()) {
            let f = copy_file(&files[i]);
            assert(files_view(out@.push(f)) =~= files_view(out@).push(f@));
            out.push(f);
        }
        i = i + 1;
    }
    assert(fv.take(files@.len() as int) =~= fv);
    if out.len() == 0 {
        Err(DinkyError::NotFound)
    } else {
        Ok(out)
    }
}

/// Whether the text ends with the suffix.
pub open spec fn ends_with(s: Seq<char>, suffix: Seq<char>) -> bool {
    s.len() >= suffix.len() && s.skip(s.len() - suffix.len()) == suffix
}

fn has_suffix(s: &str, suffix: &str) -> (r: bool)
    ensures
        r == ends_with(s@, suffix@),
{
    let a = chars_of(s);
    let b = chars_of(suffix);
    if b.len() > a.len() {
        return false;
    }
    let start = a.len() - b.len();
    let mut k: usize = 0;
    while k < b.len()
        invariant
            a@ == s@,
            b@ == suffix@,
            start + b@.len() == a@.len() <= usize::MAX,
            k <= b@.len(),
            forall|j: int| 0 <= j < k ==> a@[start + j] == b@[j],
        decreases b@.len() - k,
    {
        if a[start + k] != b[k] {
            assert(a@.skip(start as int)[k as int] != b@[k as int]);
            return false;
        }
        k = k + 1;
    }
    assert(a@.skip(start as int) =~= b@);
    true
}

/// The byte length of a name's UTF-8 encoding, as `str::len` reports it.
pub open spec fn name_len(name: Seq<char>) -> int {
    (encode_utf8(name).len() as usize) as int
}

/// What extracting an entry yields.
#[derive(Debug, PartialEq)]
pub enum Extracted {
    /// Bytes to write as they are.
    Raw(Vec<u8>),
    /// The pseudoscript lines of a dialogue script.
    Script(Vec<String>),
    /// A structured data file's value tree, to be written as text.
    Tree(GGValue),
    /// An inflated texture container for the texture collaborator.
    Texture(Vec<u8>),
    /// A texture payload that did not inflate; its bytes are written as
    /// they are, with a warning.
    Uninflated(Vec<u8>),
}

pub enum ExtractedView {
    Raw(Seq<u8>),
    Script(Seq<Seq<char>>),
    Tree(Value),
    Texture(Seq<u8>),
    Uninflated(Seq<u8>),
}

impl View for Extracted {
    type V = ExtractedView;

    open spec fn view(&self) -> ExtractedView {
        match self {
            Extracted::Raw(b) => ExtractedView::Raw(b@),
            Extracted::Script(l) => ExtractedView::Script(strings_view(l@)),
            Extracted::Tree(v) => ExtractedView::Tree(v@),
            Extracted::Texture(b) => ExtractedView::Texture(b@),
            Extracted::Uninflated(b) => ExtractedView::Uninflated(b@),
        }
    }
}

pub open spec fn extracted_result(r: Result<Extracted, DinkyError>) -> Result<ExtractedView, DinkyError> {
    match r {
        Ok(x) => Ok(x@),
        Err(e) => Err(e),
    }
}

/// The name of what inflating a zlib stream gives; `None` when inflating
/// reports an error.
pub uninterp spec fn zlib_inflated(data: Seq<u8>) -> Option<Seq<u8>>;

/// Relies on inflate::inflate_bytes_zlib, which inflates a zlib stream or
/// reports an error; its outcome depends on the bytes alone.
#[verifier::external_body]
fn inflate_zlib(data: &[u8]) -> (r: Option<Vec<u8>>)
    ensures
        r is Some <==> zlib_inflated(data@) is Some,
        r matches Some(v) ==> zlib_inflated(data@) == Some(v@),
{
    inflate::inflate_bytes_zlib(data).ok()
}

/// What a texture payload yields once inflating it gave `inflated`.
pub open spec fn texture_outcome(data: Seq<u8>, inflated: Option<Seq<u8>>) -> ExtractedView {
    match inflated {
        Some(t) => ExtractedView::Texture(t),
        None => ExtractedView::Uninflated(data),
    }
}

pub open spec fn opt_bytes(o: Option<Vec<u8>>) -> Option<Seq<u8>> {
    match o {
        Some(v) => Some(v@),
        None => None,
    }
}

/// The outcome for a texture payload given the result of inflating it: the
/// inflated bytes, or the payload itself when inflating failed.
pub fn handle_ktxbz(data: Vec<u8>, inflated: Option<Vec<u8>>) -> (r: Extracted)
    ensures
        r@ == texture_outcome(data@, opt_bytes(inflated)),
{
    match inflated {
        Some(t) => Extracted::Texture(t),
        None => Extracted::Uninflated(data),
    }
}

/// Whether the name has an extension of the structured data files.
pub open spec fn is_structured(name: Seq<char>) -> bool {
    ends_with(name, ".json"@) || ends_with(name, ".wimpy"@) || ends_with(name, ".emitter"@)
}

pub open spec fn is_texture(name: Seq<char>) -> bool {
    ends_with(name, ".ktxbz"@) || ends_with(name, ".ktxaz"@)
}

/// What extracting the entry `name`, stored as `raw`, yields with the keys.
pub open spec fn extraction(name: Seq<char>, raw: Seq<u8>, keys: (Seq<u8>, Seq<u8>, Seq<u8>)) -> Result<ExtractedView, DinkyError> {
    let (k1, k2, k3) = keys;
    if ends_with(name, ".bank"@) {
        Ok(ExtractedView::Raw(raw))
    } else if !general_keys_fit(k1, k2) {
        Err(DinkyError::Key)
    } else {
        let data = decoded(raw, k1, k2);
        if ends_with(name, ".yack"@) {
            if name_len(name) < 5 {
                Err(DinkyError::Format)
            } else if k3.len() < 1024 {
                Err(DinkyError::Key)
            } else {
                match decompiled(script_decoded(data, k3, name_len(name))) {
                    Some(lines) => Ok(ExtractedView::Script(lines)),
                    None => Err(DinkyError::Format),
                }
            }
        } else if is_structured(name) {
            match container(data) {
                Some(v) => Ok(ExtractedView::Tree(v)),
                None => Err(DinkyError::Format),
            }
        } else if is_texture(name) {
            Ok(texture_outcome(data, zlib_inflated(data)))
        } else {
            Ok(ExtractedView::Raw(data))
        }
    }
}

pub open spec fn keys_view(k: &Keys) -> (Seq<u8>, Seq<u8>, Seq<u8>) {
    (k.key1@, k.key2@, k.key3@)
}

/// The offset and size of the archive's encoded directory, from the
/// archive's first eight bytes.
pub fn read_header(header: &[u8]) -> (r: Result<(u64, usize), DinkyError>)
    ensures
        fits(header@, 0, 8) ==> (r matches Ok((o, s)) && o == u32_le(header@, 0) && s == u32_le(
            header@,
            4,
        )),
        !fits(header@, 0, 8) ==> r == Err::<(u64, usize), DinkyError>(DinkyError::Format),
{
    let offset = match read_u32_le(header, 0) {
        Some(v) => v,
        None => {
            return Err(DinkyError::Format);
        },
    };
    let size = match read_u32_le(header, 4) {
        Some(v) => v,
        None => {
            return Err(DinkyError::Format);
        },
    };
    Ok((offset as u64, size as usize))
}

/// The `count` bytes of the archive at `offset`; `Format` when they run
/// past its end.
pub fn read_bytes(pack: &[u8], offset: u64, count: usize) -> (r: Result<Vec<u8>, DinkyError>)
    ensures
        fits(pack@, offset as int, count as int) ==> (r matches Ok(v) && v@ == pack@.subrange(
            offset as int,
            offset + count,
        )),
        !fits(pack@, offset as int, count as int) ==> r == Err::<Vec<u8>, DinkyError>(
            DinkyError::Format,
        ),
{
    if offset > pack.len() as u64 {
        return Err(DinkyError::Format);
    }
    let start = offset as usize;
    if count > pack.len() - start {
        return Err(DinkyError::Format);
    }
    let region = vstd::slice::slice_subrange(pack, start, start + count);
    Ok(vstd::slice::slice_to_vec(region))
}

/// The `size` bytes at `offset`, with the general layer removed.
pub fn decode_at(pack: &[u8], keys: &Keys, offset: u64, size: usize) -> (r: Result<Vec<u8>, DinkyError>)
    ensures
        !fits(pack@, offset as int, size as int) ==> r == Err::<Vec<u8>, DinkyError>(DinkyError::Format),
        fits(pack@, offset as int, size as int) && !general_keys_fit(keys.key1@, keys.key2@) ==> r
            == Err::<Vec<u8>, DinkyError>(DinkyError::Key),
        fits(pack@, offset as int, size as int) && general_keys_fit(keys.key1@, keys.key2@) ==> (r matches Ok(v)
            && v@ == decoded(pack@.subrange(offset as int, offset + size), keys.key1@, keys.key2@)),
{
    let mut data = match read_bytes(pack, offset, size) {
        Ok(d) => d,
        Err(e) => {
            return Err(e);
        },
    };
    match decode_data(&mut data, &keys.key1, &keys.key2) {
        Ok(()) => Ok(data),
        Err(e) => Err(e),
    }
}

/// An open archive: its parsed directory and its keys.
pub struct OpenGGPack {
    pub directory: GGValue,
    pub keys: Keys,
}

impl OpenGGPack {
    /// Opens an archive from its encoded directory bytes: removes the
    /// general layer and parses the container. `Key` when the general keys
    /// have the wrong size, `Format` when the directory does not parse.
    pub fn from_directory(directory_data: Vec<u8>, keys: Keys) -> (r: Result<OpenGGPack, DinkyError>)
        ensures
            !general_keys_fit(keys.key1@, keys.key2@) ==> (r matches Err(e) && e == DinkyError::Key),
            general_keys_fit(keys.key1@, keys.key2@) ==> match container(
                decoded(directory_data@, keys.key1@, keys.key2@),
            ) {
                Some(v) => r matches Ok(p) && p.directory@ == v && keys_view(&p.keys) == keys_view(&keys),
                None => r matches Err(e) && e == DinkyError::Format,
            },
    {
        let mut data = directory_data;
        match decode_data(&mut data, &keys.key1, &keys.key2) {
            Ok(()) => {},
            Err(e) => {
                return Err(e);
            },
        }
        match GGValue::parse(data) {
            Ok(directory) => Ok(OpenGGPack { directory, keys }),
            Err(e) => Err(e),
        }
    }

    /// Opens an archive held whole in memory.
    pub fn from_bytes(pack: &[u8], keys: Keys) -> (r: Result<OpenGGPack, DinkyError>)
        ensures
            !fits(pack@, 0, 8) ==> (r matches Err(e) && e == DinkyError::Format),
            fits(pack@, 0, 8) && !fits(pack@, u32_le(pack@, 0), u32_le(pack@, 4)) ==> (r matches Err(e) && e
                == DinkyError::Format),
            fits(pack@, 0, 8) && fits(pack@, u32_le(pack@, 0), u32_le(pack@, 4)) ==> match (
                general_keys_fit(keys.key1@, keys.key2@),
                container(
                    decoded(
                        pack@.subrange(u32_le(pack@, 0), u32_le(pack@, 0) + u32_le(pack@, 4)),
                        keys.key1@,
                        keys.key2@,
                    ),
                ),
            ) {
                (false, _) => r matches Err(e) && e == DinkyError::Key,
                (true, Some(v)) => r matches Ok(p) && p.directory@ == v && keys_view(&p.keys)
                    == keys_view(&keys),
                (true, None) => r matches Err(e) && e == DinkyError::Format,
            },
    {
        let (offset, size) = match read_header(pack) {
            Ok(h) => h,
            Err(e) => {
                return Err(e);
            },
        };
        let data = match read_bytes(pack, offset, size) {
            Ok(d) => d,
            Err(e) => {
                return Err(e);
            },
        };
        OpenGGPack::from_directory(data, keys)
    }

    /// The entries that the directory lists, in order.
    pub fn get_files(&self) -> (r: Result<Vec<GGFile>, DinkyError>)
        ensures
            files_result(r) == directory_files(self.directory@),
    {
        self.directory.get_files()
    }

    /// The names of all entries, in directory order.
    pub fn list_files(&self) -> (r: Result<Vec<String>, DinkyError>)
        ensures
            match directory_files(self.directory@) {
                Ok(fs) => r matches Ok(v) && strings_view(v@) == names_of(fs),
                Err(e) => r matches Err(x) && x == e,
            },
    {
        let files = match self.get_files() {
            Ok(f) => f,
            Err(e) => {
                return Err(e);
            },
        };
        let ghost fv = files_view(files@);
        let mut names: Vec<String> = Vec::new();
        let mut i: usize = 0;
        while i < files.len()
            invariant
                fv == files_view(files@),
                i <= files@.len(),
                strings_view(names@) == names_of(fv.take(i as int)),
            decreases files@.len() - i,
        {
            let name = files[i].filename.clone();
            assert(name@ == fv[i as int].name);
            assert(strings_view(names@.push(name)) =~= strings_view(names@).push(name@));
            assert(names_of(fv.take(i + 1)) =~= names_of(fv.take(i as int)).push(fv[i as int].name));
            names.push(name);
            i = i + 1;
        }
        assert(fv.take(files@.len() as int) =~= fv);
        assert(strings_view(names@) =~= names_of(fv));
        Ok(names)
    }

    /// The entries matched by an exact name or a glob pattern; `NotFound`
    /// when none matches.
    pub fn find_files(&self, pattern: &str) -> (r: Result<Vec<GGFile>, DinkyError>)
        ensures
            match directory_files(self.directory@) {
                Ok(fs) => if matching(fs, pattern@).len() == 0 {
                    r matches Err(e) && e == DinkyError::NotFound
                } else {
                    r matches Ok(v) && files_view(v@) == matching(fs, pattern@)
                },
                Err(e) => r matches Err(x) && x == e,
            },
    {
        let files = match self.get_files() {
            Ok(f) => f,
            Err(e) => {
                return Err(e);
            },
        };
        select_files(&files, pattern)
    }

    /// Turns the stored bytes of an entry into what extracting it yields:
    /// `.bank` entries stay as stored; all others lose the general layer;
    /// dialogue scripts also lose the script layer and are decompiled;
    /// structured data files are parsed; texture payloads are inflated, or
    /// kept as they are when that fails; anything else is returned decoded.
    pub fn extract_file(&self, file: &GGFile, raw: Vec<u8>) -> (r: Result<Extracted, DinkyError>)
        ensures
            extracted_result(r) == extraction(file.filename@, raw@, keys_view(&self.keys)),
            ends_with(file.filename@, ".bank"@) ==> (r matches Ok(Extracted::Raw(b)) && b@ == raw@),
    {
        let name = file.filename.as_str();
        if has_suffix(name, ".bank") {
            return Ok(Extracted::Raw(raw));
        }
        let mut data = raw;
        match decode_data(&mut data, &self.keys.key1, &self.keys.key2) {
            Ok(()) => {},
            Err(e) => {
                return Err(e);
            },
        }
        if has_suffix(name, ".yack") {
            if name.len() < 5 {
                return Err(DinkyError::Format);
            }
            match decode_yack_data(&mut data, &self.keys.key3, name) {
                Ok(()) => {},
                Err(e) => {
                    return Err(e);
                },
            }
            match parse_yack(&data) {
                Ok(lines) => Ok(Extracted::Script(lines)),
                Err(e) => Err(e),
            }
        } else if has_suffix(name, ".json") || has_suffix(name, ".wimpy") || has_suffix(
            name,
            ".emitter",
        ) {
            match GGValue::parse(data) {
                Ok(v) => Ok(Extracted::Tree(v)),
                Err(e) => Err(e),
            }
        } else if has_suffix(name, ".ktxbz") || has_suffix(name, ".ktxaz") {
            let inflated = inflate_zlib(data.as_slice());
            Ok(handle_ktxbz(data, inflated))
        } else {
            Ok(Extracted::Raw(data))
        }
    }
}

/// The entries whose names end with the suffix, in order.
pub open spec fn ending_with(fs: Seq<FileView>, suffix: Seq<char>) -> Seq<FileView>
    decreases fs.len(),
{
    if fs.len() == 0 {
        Seq::empty()
    } else {
        let r = ending_with(fs.drop_last(), suffix);
        if ends_with(fs.last().name, suffix) {
            r.push(fs.last())
        } else {
            r
        }
    }
}

/// Selecting entries with `*` followed by a literal suffix keeps exactly
/// the entries whose names end with that suffix, in directory order.
pub proof fn lemma_select_by_suffix(fs: Seq<FileView>, suffix: Seq<char>)
    requires
        is_literal(suffix),
    ensures
        matching(fs, seq!['*'] + suffix) == ending_with(fs, suffix),
    decreases fs.len(),
{
    if fs.len() > 0 {
        lemma_select_by_suffix(fs.drop_last(), suffix);
        lemma_star_suffix(suffix, fs.last().name);
    }
}

} // verus!
