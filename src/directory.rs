//! The self-describing binary value container used for the archive
//! directory and many embedded data files.
//!
//! Layout, little-endian: a 4-byte magic `01 02 03 04`, a reserved word, the
//! offset of a string offset table; then the root value. The table is a
//! kind byte 7 followed by 4-byte offsets of zero-terminated strings, ended
//! by `0xFFFFFFFF`. A value is a tag byte: a dictionary (2) holds a count
//! and that many (2-byte key index, value) pairs and ends with the byte 2; a
//! list (3) holds a count and values and ends with the byte 3; a string
//! (4, and 9, 10, 11 for coordinates and hotspots) and a number (5, 6) hold a
//! 2-byte index into the string table.
use vstd::prelude::*;

use crate::easy_br::{fits, read_cstring, read_u16_le, read_u32_le, text_at, u16_le, u32_le};
use crate::error::DinkyError;
use crate::ggpack::{files_view, FileView, GGFile};
use crate::number::{count_value, count_value_at_most, float_syntax, is_float_text};
use vstd::string::StringExecFns;

verus! {

/// The tags of the container's values.
#[derive(Debug, Clone, Copy, PartialEq, Eq, Structural)]
pub enum GGValueType {
    Dictionary,
    List,
    String,
    Integer,
    Float,
    Coordinate,
    CoordinateList,
    Hotspot,
}

pub open spec fn value_type_of(tag: u8) -> Option<GGValueType> {
    match tag {
        2 => Some(GGValueType::Dictionary),
        3 => Some(GGValueType::List),
        4 => Some(GGValueType::String),
        5 => Some(GGValueType::Integer),
        6 => Some(GGValueType::Float),
        9 => Some(GGValueType::Coordinate),
        10 => Some(GGValueType::CoordinateList),
        11 => Some(GGValueType::Hotspot),
        _ => None,
    }
}

impl GGValueType {
    /// The value type of a tag byte; `None` for a tag the format lacks.
    pub fn from_tag(tag: u8) -> (r: Option<GGValueType>)
        ensures
            r == value_type_of(tag),
    {
        match tag {
            2 => Some(GGValueType::Dictionary),
            3 => Some(GGValueType::List),
            4 => Some(GGValueType::String),
            5 => Some(GGValueType::Integer),
            6 => Some(GGValueType::Float),
            9 => Some(GGValueType::Coordinate),
            10 => Some(GGValueType::CoordinateList),
            11 => Some(GGValueType::Hotspot),
            _ => None,
        }
    }

    /// The tag byte of the value type.
    pub fn tag(&self) -> (r: u8)
        ensures
            value_type_of(r) == Some(*self),
    {
        match self {
            GGValueType::Dictionary => 2,
            GGValueType::List => 3,
            GGValueType::String => 4,
            GGValueType::Integer => 5,
            GGValueType::Float => 6,
            GGValueType::Coordinate => 9,
            GGValueType::CoordinateList => 10,
            GGValueType::Hotspot => 11,
        }
    }
}

/// A value tree: the mathematical content of a `GGValue`.
pub enum Value {
    Dict(Seq<(Seq<char>, Value)>),
    List(Seq<Value>),
    Str(Seq<char>),
    Num(Seq<char>),
}

/// A parsed container value. A dictionary keeps its entries in the order
/// of their first appearance, each key once; a number keeps its text.
#[derive(Debug, PartialEq)]
pub enum GGValue {
    GGDict(Vec<(String, GGValue)>),
    GGList(Vec<GGValue>),
    GGString(String),
    GGNumber(String),
}

impl GGValue {
    pub open spec fn view(&self) -> Value
        decreases self,
    {
        match self {
            GGValue::GGDict(d) => Value::Dict(
                Seq::new(
                    d@.len(),
                    |i: int|
                        if 0 <= i < d@.len() {
                            (d@[i].0@, d@[i].1.view())
                        } else {
                            (Seq::empty(), Value::List(Seq::empty()))
                        },
                ),
            ),
            GGValue::GGList(l) => Value::List(
                Seq::new(
                    l@.len(),
                    |i: int|
                        if 0 <= i < l@.len() {
                            l@[i].view()
                        } else {
                            Value::List(Seq::empty())
                        },
                ),
            ),
            GGValue::GGString(s) => Value::Str(s@),
            GGValue::GGNumber(s) => Value::Num(s@),
        }
    }
}

pub open spec fn entries_view(d: Seq<(String, GGValue)>) -> Seq<(Seq<char>, Value)> {
    Seq::new(d.len(), |i: int| (d[i].0@, d[i].1@))
}

pub open spec fn items_view(l: Seq<GGValue>) -> Seq<Value> {
    Seq::new(l.len(), |i: int| l[i]@)
}

pub open spec fn offsets_view(o: Seq<u32>) -> Seq<int> {
    Seq::new(o.len(), |i: int| o[i] as int)
}

/// The first position of key `k` in the entries, or -1.
pub open spec fn key_index(d: Seq<(Seq<char>, Value)>, k: Seq<char>) -> int
    decreases d.len(),
{
    if d.len() == 0 {
        -1
    } else {
        let j = key_index(d.drop_last(), k);
        if j >= 0 {
            j
        } else if d.last().0 == k {
            d.len() - 1
        } else {
            -1
        }
    }
}

/// Stores `v` under `k`: a present key keeps its place and takes the new
/// value, a new key goes last.
pub open spec fn dict_insert(d: Seq<(Seq<char>, Value)>, k: Seq<char>, v: Value) -> Seq<(Seq<char>, Value)> {
    let i = key_index(d, k);
    if i >= 0 {
        d.update(i, (k, v))
    } else {
        d.push((k, v))
    }
}

/// The dictionary that the entries build when stored in order.
pub open spec fn dict_of(es: Seq<(Seq<char>, Value)>) -> Seq<(Seq<char>, Value)>
    decreases es.len(),
{
    if es.len() == 0 {
        Seq::empty()
    } else {
        dict_insert(dict_of(es.drop_last()), es.last().0, es.last().1)
    }
}

/// The offsets of the string table from `p` up to the terminator.
pub open spec fn table_offsets(b: Seq<u8>, p: int) -> Option<Seq<int>>
    decreases b.len() - p,
{
    if !fits(b, p, 4) {
        None
    } else if u32_le(b, p) == 0xFFFF_FFFF {
        Some(Seq::empty())
    } else {
        match table_offsets(b, p + 4) {
            Some(rest) => Some(seq![u32_le(b, p)] + rest),
            None => None,
        }
    }
}

/// The header check and the string offset table of a container.
pub open spec fn offset_table(b: Seq<u8>) -> Option<Seq<int>> {
    if !fits(b, 0, 12) || u32_le(b, 0) != 0x0403_0201 {
        None
    } else {
        let t = u32_le(b, 8);
        if !fits(b, t, 1) || b[t] != 7 {
            None
        } else {
            table_offsets(b, t + 1)
        }
    }
}

/// The string that the 2-byte table index at `p` refers to.
pub open spec fn table_text(b: Seq<u8>, offs: Seq<int>, p: int) -> Option<Seq<char>> {
    if !fits(b, p, 2) || u16_le(b, p) >= offs.len() {
        None
    } else {
        text_at(b, offs[u16_le(b, p)])
    }
}

/// The value whose tag is at `p`, with the position just after it.
pub open spec fn parse_value(b: Seq<u8>, offs: Seq<int>, p: int) -> Option<(Value, int)>
    decreases b.len() - p, 0nat,
{
    if !fits(b, p, 1) {
        None
    } else if b[p] == 2 || b[p] == 3 {
        if !fits(b, p + 1, 4) {
            None
        } else if b[p] == 2 {
            match parse_entries(b, offs, p + 5, u32_le(b, p + 1) as nat) {
                Some((es, q)) => if fits(b, q, 1) && b[q] == 2 {
                    Some((Value::Dict(dict_of(es)), q + 1))
                } else {
                    None
                },
                None => None,
            }
        } else {
            match parse_items(b, offs, p + 5, u32_le(b, p + 1) as nat) {
                Some((vs, q)) => if fits(b, q, 1) && b[q] == 3 {
                    Some((Value::List(vs), q + 1))
                } else {
                    None
                },
                None => None,
            }
        }
    } else if b[p] == 4 || b[p] == 9 || b[p] == 10 || b[p] == 11 {
        match table_text(b, offs, p + 1) {
            Some(t) => Some((Value::Str(t), p + 3)),
            None => None,
        }
    } else if b[p] == 5 || b[p] == 6 {
        match table_text(b, offs, p + 1) {
            Some(t) => if float_syntax(t) {
                Some((Value::Num(t), p + 3))
            } else {
                None
            },
            None => None,
        }
    } else {
        None
    }
}

/// `n` dictionary entries starting at `p`, in stream order.
pub open spec fn parse_entries(b: Seq<u8>, offs: Seq<int>, p: int, n: nat) -> Option<(Seq<(Seq<char>, Value)>, int)>
    decreases b.len() - p, n,
{
    if n == 0 {
        Some((Seq::empty(), p))
    } else if !fits(b, p, 2) {
        None
    } else {
        match table_text(b, offs, p) {
            None => None,
            Some(k) => match parse_value(b, offs, p + 2) {
                None => None,
                Some((v, q)) => if q <= p || q > b.len() {
                    None
                } else {
                    match parse_entries(b, offs, q, (n - 1) as nat) {
                        Some((rest, r)) => Some((seq![(k, v)] + rest, r)),
                        None => None,
                    }
                },
            },
        }
    }
}

/// `n` list items starting at `p`.
pub open spec fn parse_items(b: Seq<u8>, offs: Seq<int>, p: int, n: nat) -> Option<(Seq<Value>, int)>
    decreases b.len() - p, n,
{
    if n == 0 {
        Some((Seq::empty(), p))
    } else if !fits(b, p, 1) {
        None
    } else {
        match parse_value(b, offs, p) {
            None => None,
            Some((v, q)) => if q <= p || q > b.len() {
                None
            } else {
                match parse_items(b, offs, q, (n - 1) as nat) {
                    Some((rest, r)) => Some((seq![v] + rest, r)),
                    None => None,
                }
            },
        }
    }
}

/// The value tree that a container's bytes hold, or `None` when they
/// break the layout.
pub open spec fn container(b: Seq<u8>) -> Option<Value> {
    match offset_table(b) {
        Some(offs) => match parse_value(b, offs, 12) {
            Some((v, q)) => Some(v),
            None => None,
        },
        None => None,
    }
}

/// Whether no key occurs twice among the entries.
pub open spec fn keys_unique(d: Seq<(Seq<char>, Value)>) -> bool {
    forall|i: int, j: int| 0 <= i < j < d.len() ==> (#[trigger] d[i]).0 != (#[trigger] d[j]).0
}

/// A well-formed tree: every dictionary holds each key once and every
/// number's text reads as a number.
pub open spec fn value_wf(v: Value) -> bool
    decreases v,
{
    match v {
        Value::Dict(d) => keys_unique(d) && forall|i: int|
            0 <= i < d.len() ==> value_wf(#[trigger] d[i].1),
        Value::List(l) => forall|i: int| 0 <= i < l.len() ==> value_wf(#[trigger] l[i]),
        Value::Str(_) => true,
        Value::Num(t) => float_syntax(t),
    }
}

proof fn lemma_key_index_found(d: Seq<(Seq<char>, Value)>, k: Seq<char>)
    ensures
        key_index(d, k) >= 0 ==> key_index(d, k) < d.len() && d[key_index(d, k)].0 == k,
        key_index(d, k) < 0 ==> key_index(d, k) == -1 && forall|j: int|
            0 <= j < d.len() ==> (#[trigger] d[j]).0 != k,
    decreases d.len(),
{
    if d.len() > 0 {
        lemma_key_index_found(d.drop_last(), k);
        assert forall|j: int| 0 <= j < d.len() - 1 implies #[trigger] d[j] == d.drop_last()[j] by {}
    }
}

/// Storing entries one after another leaves every key once, and keeps
/// only values that were stored.
pub proof fn lemma_dict_of_wf(es: Seq<(Seq<char>, Value)>)
    requires
        forall|i: int| 0 <= i < es.len() ==> value_wf(#[trigger] es[i].1),
    ensures
        keys_unique(dict_of(es)),
        forall|i: int| 0 <= i < dict_of(es).len() ==> value_wf(#[trigger] dict_of(es)[i].1),
    decreases es.len(),
{
    if es.len() > 0 {
        let rest = es.drop_last();
        assert forall|i: int| 0 <= i < rest.len() implies value_wf(#[trigger] rest[i].1) by {
            assert(rest[i] == es[i]);
        }
        lemma_dict_of_wf(rest);
        let d = dict_of(rest);
        let (k, v) = es.last();
        lemma_key_index_found(d, k);
        assert(value_wf(es[es.len() - 1].1));
    }
}

proof fn lemma_parse_wf(b: Seq<u8>, offs: Seq<int>, p: int)
    ensures
        parse_value(b, offs, p) matches Some((v, q)) ==> value_wf(v),
    decreases b.len() - p, 0nat, 0nat,
{
    if fits(b, p, 5) && (b[p] == 2 || b[p] == 3) {
        let n = u32_le(b, p + 1) as nat;
        if b[p] == 2 {
            lemma_entries_wf(b, offs, p + 5, n);
            if let Some((es, q)) = parse_entries(b, offs, p + 5, n) {
                lemma_dict_of_wf(es);
            }
        } else {
            lemma_items_wf(b, offs, p + 5, n);
        }
    }
}

proof fn lemma_entries_wf(b: Seq<u8>, offs: Seq<int>, p: int, n: nat)
    requires
        0 <= b.len() - p,
    ensures
        parse_entries(b, offs, p, n) matches Some((es, r)) ==> forall|i: int|
            0 <= i < es.len() ==> value_wf(#[trigger] es[i].1),
    decreases b.len() - p, 1nat, n,
{
    if n > 0 && fits(b, p, 2) {
        if let Some(k) = table_text(b, offs, p) {
            lemma_parse_wf(b, offs, p + 2);
            if let Some((v, q)) = parse_value(b, offs, p + 2) {
                if !(q <= p || q > b.len()) {
                    lemma_entries_wf(b, offs, q, (n - 1) as nat);
                    if let Some((rest, r)) = parse_entries(b, offs, q, (n - 1) as nat) {
                        let es = seq![(k, v)] + rest;
                        assert forall|i: int| 0 <= i < es.len() implies value_wf(#[trigger] es[i].1) by {
                            if i > 0 {
                                assert(es[i] == rest[i - 1]);
                            }
                        }
                    }
                }
            }
        }
    }
}

proof fn lemma_items_wf(b: Seq<u8>, offs: Seq<int>, p: int, n: nat)
    requires
        0 <= b.len() - p,
    ensures
        parse_items(b, offs, p, n) matches Some((vs, r)) ==> forall|i: int|
            0 <= i < vs.len() ==> value_wf(#[trigger] vs[i]),
    decreases b.len() - p, 1nat, n,
{
    if n > 0 && fits(b, p, 1) {
        lemma_parse_wf(b, offs, p);
        if let Some((v, q)) = parse_value(b, offs, p) {
            if !(q <= p || q > b.len()) {
                lemma_items_wf(b, offs, q, (n - 1) as nat);
                if let Some((rest, r)) = parse_items(b, offs, q, (n - 1) as nat) {
                    let vs = seq![v] + rest;
                    assert forall|i: int| 0 <= i < vs.len() implies value_wf(#[trigger] vs[i]) by {
                        if i > 0 {
                            assert(vs[i] == rest[i - 1]);
                        }
                    }
                }
            }
        }
    }
}

/// Every tree that a container holds is well formed.
pub proof fn lemma_container_wf(b: Seq<u8>)
    ensures
        container(b) matches Some(v) ==> value_wf(v),
{
    if let Some(offs) = offset_table(b) {
        lemma_parse_wf(b, offs, 12);
    }
}

pub open spec fn prefix_with<A>(xs: Seq<A>, r: Option<(Seq<A>, int)>) -> Option<(Seq<A>, int)> {
    match r {
        Some((ys, q)) => Some((xs + ys, q)),
        None => None,
    }
}

proof fn lemma_prefix_with<A>(xs: Seq<A>, ys: Seq<A>, r: Option<(Seq<A>, int)>)
    ensures
        prefix_with(xs, prefix_with(ys, r)) == prefix_with(xs + ys, r),
{
    if let Some((zs, q)) = r {
        assert(xs + (ys + zs) =~= (xs + ys) + zs);
    }
}

proof fn lemma_entries_advance(b: Seq<u8>, offs: Seq<int>, p: int, n: nat)
    ensures
        parse_entries(b, offs, p, n) matches Some((es, r)) ==> p <= r && es.len() == n,
    decreases n,
{
    if n > 0 && fits(b, p, 2) {
        if let Some(k) = table_text(b, offs, p) {
            if let Some((v, q)) = parse_value(b, offs, p + 2) {
                if !(q <= p || q > b.len()) {
                    lemma_entries_advance(b, offs, q, (n - 1) as nat);
                }
            }
        }
    }
}

proof fn lemma_items_advance(b: Seq<u8>, offs: Seq<int>, p: int, n: nat)
    ensures
        parse_items(b, offs, p, n) matches Some((vs, r)) ==> p <= r && vs.len() == n,
    decreases n,
{
    if n > 0 && fits(b, p, 1) {
        if let Some((v, q)) = parse_value(b, offs, p) {
            if !(q <= p || q > b.len()) {
                lemma_items_advance(b, offs, q, (n - 1) as nat);
            }
        }
    }
}

proof fn lemma_value_advances(b: Seq<u8>, offs: Seq<int>, p: int)
    ensures
        parse_value(b, offs, p) matches Some((v, q)) ==> p < q <= b.len(),
{
    if fits(b, p, 5) {
        lemma_entries_advance(b, offs, p + 5, u32_le(b, p + 1) as nat);
        lemma_items_advance(b, offs, p + 5, u32_le(b, p + 1) as nat);
    }
}

proof fn lemma_key_index_absent(d: Seq<(Seq<char>, Value)>, k: Seq<char>)
    requires
        forall|j: int| 0 <= j < d.len() ==> (#[trigger] d[j]).0 != k,
    ensures
        key_index(d, k) == -1,
    decreases d.len(),
{
    if d.len() > 0 {
        lemma_key_index_absent(d.drop_last(), k);
    }
}

proof fn lemma_key_index_at(d: Seq<(Seq<char>, Value)>, k: Seq<char>, i: int)
    requires
        0 <= i < d.len(),
        d[i].0 == k,
        forall|j: int| 0 <= j < i ==> (#[trigger] d[j]).0 != k,
    ensures
        key_index(d, k) == i,
    decreases d.len(),
{
    if i == d.len() - 1 {
        lemma_key_index_absent(d.drop_last(), k);
    } else {
        lemma_key_index_at(d.drop_last(), k, i);
    }
}

proof fn lemma_dict_view(d: Vec<(String, GGValue)>)
    ensures
        GGValue::GGDict(d)@ == Value::Dict(entries_view(d@)),
{
    let v = GGValue::GGDict(d);
    if let Value::Dict(s) = v@ {
        assert(s =~= entries_view(d@));
    }
}

proof fn lemma_list_view(l: Vec<GGValue>)
    ensures
        GGValue::GGList(l)@ == Value::List(items_view(l@)),
{
    let v = GGValue::GGList(l);
    if let Value::List(s) = v@ {
        assert(s =~= items_view(l@));
    }
}

proof fn lemma_entries_fail(
    b: Seq<u8>,
    offs: Seq<int>,
    p: int,
    raw: Seq<(Seq<char>, Value)>,
    q: int,
    m: nat,
)
    requires
        fits(b, p, 5),
        b[p] == 2,
        m > 0,
        parse_entries(b, offs, q, m) is None,
        parse_entries(b, offs, p + 5, u32_le(b, p + 1) as nat) == prefix_with(
            raw,
            parse_entries(b, offs, q, m),
        ),
    ensures
        parse_value(b, offs, p) is None,
{
}

proof fn lemma_items_fail(b: Seq<u8>, offs: Seq<int>, p: int, done: Seq<Value>, q: int, m: nat)
    requires
        fits(b, p, 5),
        b[p] == 3,
        m > 0,
        parse_items(b, offs, q, m) is None,
        parse_items(b, offs, p + 5, u32_le(b, p + 1) as nat) == prefix_with(
            done,
            parse_items(b, offs, q, m),
        ),
    ensures
        parse_value(b, offs, p) is None,
{
}

/// Stores `v` under `k` in the entries, as `dict_insert` says.
fn dict_store(d: &mut Vec<(String, GGValue)>, k: String, v: GGValue)
    ensures
        entries_view(final(d)@) == dict_insert(entries_view(old(d)@), k@, v@),
{
    let ghost ev = entries_view(d@);
    let mut i: usize = 0;
    while i < d.len()
        invariant
            ev == entries_view(d@),
            d@ == old(d)@,
            i <= d@.len(),
            forall|j: int| 0 <= j < i ==> (#[trigger] ev[j]).0 != k@,
        decreases d@.len() - i,
    {
        if d[i].0 == k {
            proof {
                lemma_key_index_at(ev, k@, i as int);
            }
            let ghost kv = k@;
            let ghost vv = v@;
            d[i] = (k, v);
            assert(entries_view(d@) =~= ev.update(i as int, (kv, vv)));
            return ;
        }
        i = i + 1;
    }
    proof {
        lemma_key_index_absent(ev, k@);
    }
    let ghost kv = k@;
    let ghost vv = v@;
    d.push((k, v));
    assert(entries_view(d@) =~= ev.push((kv, vv)));
}

/// Reads the string offset table after checking the header's magic.
pub(crate) fn read_offsets(b: &[u8]) -> (r: Result<Vec<u32>, DinkyError>)
    ensures
        r is Ok <==> offset_table(b@) is Some,
        r matches Ok(o) ==> offset_table(b@) == Some(offsets_view(o@)),
        r matches Err(e) ==> e == DinkyError::Format,
{
    let magic = match read_u32_le(b, 0) {
        Some(m) => m,
        None => {
            return Err(DinkyError::Format);
        },
    };
    let t = match read_u32_le(b, 8) {
        Some(t) => t as usize,
        None => {
            return Err(DinkyError::Format);
        },
    };
    if magic != 0x0403_0201 || t >= b.len() || b[t] != 7 {
        return Err(DinkyError::Format);
    }
    let mut offsets: Vec<u32> = Vec::new();
    let mut pos: usize = t + 1;
    assert(offsets_view(offsets@) + table_offsets(b@, pos as int)->Some_0 =~= table_offsets(
        b@,
        pos as int,
    )->Some_0);
    loop
        invariant
            b@.len() <= usize::MAX,
            offset_table(b@) == prefix_with_end(offsets_view(offsets@), table_offsets(b@, pos as int)),
        decreases b@.len() - pos,
    {
        let v = match read_u32_le(b, pos) {
            Some(v) => v,
            None => {
                return Err(DinkyError::Format);
            },
        };
        if v == 0xFFFF_FFFF {
            assert(offsets_view(offsets@) + Seq::empty() =~= offsets_view(offsets@));
            return Ok(offsets);
        }
        proof {
            let rest = table_offsets(b@, pos + 4);
            if let Some(r) = rest {
                assert(offsets_view(offsets@) + (seq![v as int] + r) =~= offsets_view(offsets@.push(v)) + r);
            }
        }
        offsets.push(v);
        pos = pos + 4;
    }
}

pub open spec fn prefix_with_end(xs: Seq<int>, r: Option<Seq<int>>) -> Option<Seq<int>> {
    match r {
        Some(ys) => Some(xs + ys),
        None => None,
    }
}

/// Reads the 2-byte table index at `p` and the string it refers to.
fn read_table_entry(b: &[u8], offsets: &Vec<u32>, p: usize) -> (r: Result<String, DinkyError>)
    ensures
        r is Ok <==> table_text(b@, offsets_view(offsets@), p as int) is Some,
        r matches Ok(s) ==> table_text(b@, offsets_view(offsets@), p as int) == Some(s@),
        r matches Err(e) ==> e == DinkyError::Format,
{
    let idx = match read_u16_le(b, p) {
        Some(i) => i as usize,
        None => {
            return Err(DinkyError::Format);
        },
    };
    if idx >= offsets.len() {
        return Err(DinkyError::Format);
    }
    match read_cstring(b, offsets[idx] as usize) {
        Some((s, _)) => Ok(s),
        None => Err(DinkyError::Format),
    }
}

/// Reads a dictionary whose tag is at `p`.
fn read_dict(b: &[u8], offsets: &Vec<u32>, p: usize) -> (r: Result<(GGValue, usize), DinkyError>)
    requires
        fits(b@, p as int, 1),
        b@[p as int] == 2,
    ensures
        r is Ok <==> parse_value(b@, offsets_view(offsets@), p as int) is Some,
        r matches Ok((v, q)) ==> parse_value(b@, offsets_view(offsets@), p as int) == Some(
            (v@, q as int),
        ),
        r matches Err(e) ==> e == DinkyError::Format,
    decreases b@.len() - p, 0nat,
{
    let ghost ov = offsets_view(offsets@);
    if b.len() - p < 5 {
        return Err(DinkyError::Format);
    }
    let count = match read_u32_le(b, p + 1) {
        Some(c) => c,
        None => {
            return Err(DinkyError::Format);
        },
    };
    let mut d: Vec<(String, GGValue)> = Vec::new();
    let ghost mut raw: Seq<(Seq<char>, Value)> = Seq::empty();
    let mut q: usize = p + 5;
    let mut i: u32 = 0;
    assert(raw + parse_entries(b@, ov, q as int, count as nat)->Some_0.0 =~= parse_entries(b@, ov, q as int, count as nat)->Some_0.0);
    while i < count
        invariant
            ov == offsets_view(offsets@),
            b@.len() <= usize::MAX,
            p + 5 <= q <= b@.len(),
            i <= count,
            count == u32_le(b@, p + 1),
            parse_entries(b@, ov, p + 5, count as nat) == prefix_with(
                raw,
                parse_entries(b@, ov, q as int, (count - i) as nat),
            ),
            entries_view(d@) == dict_of(raw),
            b@[p as int] == 2,
        decreases count - i,
    {
        let key = match read_table_entry(b, offsets, q) {
            Ok(k) => k,
            Err(e) => {
                proof {
                    lemma_entries_fail(b@, ov, p as int, raw, q as int, (count - i) as nat);
                }
                return Err(e);
            },
        };
        proof {
            lemma_value_advances(b@, ov, q + 2);
        }
        let (value, next) = match read_ggvalue(b, offsets, q + 2) {
            Ok(x) => x,
            Err(e) => {
                proof {
                    lemma_entries_fail(b@, ov, p as int, raw, q as int, (count - i) as nat);
                }
                return Err(e);
            },
        };
        proof {
            lemma_prefix_with(raw, seq![(key@, value@)], parse_entries(b@, ov, next as int, (count - i - 1) as nat));
            assert(raw.push((key@, value@)).drop_last() =~= raw);
            assert(raw + seq![(key@, value@)] =~= raw.push((key@, value@)));
        }
        let ghost kv = (key@, value@);
        dict_store(&mut d, key, value);
        proof {
            raw = raw.push(kv);
        }
        q = next;
        i = i + 1;
    }
    assert(raw + Seq::empty() =~= raw);
    if q >= b.len() || b[q] != 2 {
        return Err(DinkyError::Format);
    }
    proof {
        lemma_dict_view(d);
    }
    Ok((GGValue::GGDict(d), q + 1))
}

/// Reads a list whose tag is at `p`.
fn read_list(b: &[u8], offsets: &Vec<u32>, p: usize) -> (r: Result<(GGValue, usize), DinkyError>)
    requires
        fits(b@, p as int, 1),
        b@[p as int] == 3,
    ensures
        r is Ok <==> parse_value(b@, offsets_view(offsets@), p as int) is Some,
        r matches Ok((v, q)) ==> parse_value(b@, offsets_view(offsets@), p as int) == Some(
            (v@, q as int),
        ),
        r matches Err(e) ==> e == DinkyError::Format,
    decreases b@.len() - p, 0nat,
{
    let ghost ov = offsets_view(offsets@);
    if b.len() - p < 5 {
        return Err(DinkyError::Format);
    }
    let count = match read_u32_le(b, p + 1) {
        Some(c) => c,
        None => {
            return Err(DinkyError::Format);
        },
    };
    let mut l: Vec<GGValue> = Vec::new();
    let mut q: usize = p + 5;
    let mut i: u32 = 0;
    assert(items_view(l@) + parse_items(b@, ov, q as int, count as nat)->Some_0.0 =~= parse_items(b@, ov, q as int, count as nat)->Some_0.0);
    while i < count
        invariant
            ov == offsets_view(offsets@),
            b@.len() <= usize::MAX,
            p + 5 <= q <= b@.len(),
            i <= count,
            count == u32_le(b@, p + 1),
            parse_items(b@, ov, p + 5, count as nat) == prefix_with(
                items_view(l@),
                parse_items(b@, ov, q as int, (count - i) as nat),
            ),
            b@[p as int] == 3,
        decreases count - i,
    {
        if q >= b.len() {
            proof {
                lemma_items_fail(b@, ov, p as int, items_view(l@), q as int, (count - i) as nat);
            }
            return Err(DinkyError::Format);
        }
        proof {
            lemma_value_advances(b@, ov, q as int);
        }
        let (value, next) = match read_ggvalue(b, offsets, q) {
            Ok(x) => x,
            Err(e) => {
                proof {
                    lemma_items_fail(b@, ov, p as int, items_view(l@), q as int, (count - i) as nat);
                }
                return Err(e);
            },
        };
        proof {
            lemma_prefix_with(items_view(l@), seq![value@], parse_items(b@, ov, next as int, (count - i - 1) as nat));
            assert(items_view(l@) + seq![value@] =~= items_view(l@.push(value)));
        }
        l.push(value);
        q = next;
        i = i + 1;
    }
    assert(items_view(l@) + Seq::empty() =~= items_view(l@));
    if q >= b.len() || b[q] != 3 {
        return Err(DinkyError::Format);
    }
    proof {
        lemma_list_view(l);
    }
    Ok((GGValue::GGList(l), q + 1))
}

/// Reads the value whose tag is at `p`, with the position just after it.
fn read_ggvalue(b: &[u8], offsets: &Vec<u32>, p: usize) -> (r: Result<(GGValue, usize), DinkyError>)
    ensures
        r is Ok <==> parse_value(b@, offsets_view(offsets@), p as int) is Some,
        r matches Ok((v, q)) ==> parse_value(b@, offsets_view(offsets@), p as int) == Some(
            (v@, q as int),
        ),
        r matches Err(e) ==> e == DinkyError::Format,
    decreases b@.len() - p, 1nat,
{
    if p >= b.len() {
        return Err(DinkyError::Format);
    }
    match GGValueType::from_tag(b[p]) {
        Some(GGValueType::Dictionary) => read_dict(b, offsets, p),
        Some(GGValueType::List) => read_list(b, offsets, p),
        Some(GGValueType::Integer) | Some(GGValueType::Float) => {
            if p + 1 >= b.len() {
                return Err(DinkyError::Format);
            }
            let text = match read_table_entry(b, offsets, p + 1) {
                Ok(t) => t,
                Err(e) => {
                    return Err(e);
                },
            };
            if is_float_text(text.as_str()) {
                Ok((GGValue::GGNumber(text), p + 3))
            } else {
                Err(DinkyError::Format)
            }
        },
        Some(_) => {
            if p + 1 >= b.len() {
                return Err(DinkyError::Format);
            }
            match read_table_entry(b, offsets, p + 1) {
                Ok(t) => Ok((GGValue::GGString(t), p + 3)),
                Err(e) => Err(e),
            }
        },
        None => Err(DinkyError::Format),
    }
}

impl GGValue {
    /// Parses a container. Fails with `Format` exactly when the bytes break
    /// the layout: a wrong magic or table kind, an unknown tag, a wrong end
    /// marker, a table index out of range, truncated data, a string that is
    /// not UTF-8, or a number whose text is not a number.
    pub fn parse(data: Vec<u8>) -> (r: Result<GGValue, DinkyError>)
        ensures
            r is Ok <==> container(data@) is Some,
            r matches Ok(v) ==> container(data@) == Some(v@) && value_wf(v@),
            r matches Err(e) ==> e == DinkyError::Format,
    {
        let b = data.as_slice();
        proof {
            lemma_container_wf(data@);
        }
        let offsets = match read_offsets(b) {
            Ok(o) => o,
            Err(e) => {
                return Err(e);
            },
        };
        match read_ggvalue(b, &offsets, 12) {
            Ok((v, _)) => Ok(v),
            Err(e) => Err(e),
        }
    }
}

/// The value stored under `k`, if any.
pub open spec fn dict_get(d: Seq<(Seq<char>, Value)>, k: Seq<char>) -> Option<Value> {
    let i = key_index(d, k);
    if i >= 0 {
        Some(d[i].1)
    } else {
        None
    }
}

pub open spec fn text_field(d: Seq<(Seq<char>, Value)>, k: Seq<char>) -> Result<Seq<char>, DinkyError> {
    match dict_get(d, k) {
        None => Err(DinkyError::NotFound),
        Some(Value::Str(t)) => Ok(t),
        Some(_) => Err(DinkyError::Format),
    }
}

/// A number whose value is a whole number of at most `max` (`12`, `12.0`
/// or `1.2e1`); a fractional, negative or larger value is a `Format` error.
pub open spec fn count_field(d: Seq<(Seq<char>, Value)>, k: Seq<char>, max: nat) -> Result<nat, DinkyError> {
    match dict_get(d, k) {
        None => Err(DinkyError::NotFound),
        Some(Value::Num(t)) => match count_value(t) {
            Some(v) => if v <= max {
                Ok(v)
            } else {
                Err(DinkyError::Format)
            },
            None => Err(DinkyError::Format),
        },
        Some(_) => Err(DinkyError::Format),
    }
}

/// The entry that one dictionary of the directory's `files` list describes.
pub open spec fn file_entry(v: Value) -> Result<FileView, DinkyError> {
    match v {
        Value::Dict(d) => match text_field(d, "filename"@) {
            Err(e) => Err(e),
            Ok(name) => match count_field(d, "offset"@, u64::MAX as nat) {
                Err(e) => Err(e),
                Ok(offset) => match count_field(d, "size"@, usize::MAX as nat) {
                    Err(e) => Err(e),
                    Ok(size) => Ok(FileView { name, size, offset }),
                },
            },
        },
        _ => Err(DinkyError::Format),
    }
}

/// The entries of the items, in order; the first failing item decides the error.
pub open spec fn files_from(items: Seq<Value>) -> Result<Seq<FileView>, DinkyError>
    decreases items.len(),
{
    if items.len() == 0 {
        Ok(Seq::empty())
    } else {
        match files_from(items.drop_last()) {
            Err(e) => Err(e),
            Ok(fs) => match file_entry(items.last()) {
                Err(e) => Err(e),
                Ok(f) => Ok(fs.push(f)),
            },
        }
    }
}

/// The entries that an archive directory lists: a dictionary whose `files`
/// key holds a list of entry dictionaries.
pub open spec fn directory_files(root: Value) -> Result<Seq<FileView>, DinkyError> {
    match root {
        Value::Dict(d) => match dict_get(d, "files"@) {
            None => Err(DinkyError::NotFound),
            Some(Value::List(items)) => files_from(items),
            Some(_) => Err(DinkyError::Format),
        },
        _ => Err(DinkyError::Format),
    }
}

pub open spec fn ref_view(r: Option<&GGValue>) -> Option<Value> {
    match r {
        Some(v) => Some(v@),
        None => None,
    }
}

pub open spec fn files_result(r: Result<Vec<GGFile>, DinkyError>) -> Result<Seq<FileView>, DinkyError> {
    match r {
        Ok(v) => Ok(files_view(v@)),
        Err(e) => Err(e),
    }
}

/// Finds the value stored under `key` in the entries.
fn dict_lookup<'a>(d: &'a Vec<(String, GGValue)>, key: &String) -> (r: Option<&'a GGValue>)
    ensures
        ref_view(r) == dict_get(entries_view(d@), key@),
{
    let ghost ev = entries_view(d@);
    let mut i: usize = 0;
    while i < d.len()
        invariant
            ev == entries_view(d@),
            i <= d@.len(),
            forall|j: int| 0 <= j < i ==> (#[trigger] ev[j]).0 != key@,
        decreases d@.len() - i,
    {
        if d[i].0 == *key {
            proof {
                lemma_key_index_at(ev, key@, i as int);
            }
            return Some(&d[i].1);
        }
        i = i + 1;
    }
    proof {
        lemma_key_index_absent(ev, key@);
    }
    None
}

fn text_field_of(d: &Vec<(String, GGValue)>, key: &str) -> (r: Result<String, DinkyError>)
    ensures
        match text_field(entries_view(d@), key@) {
            Ok(t) => r matches Ok(s) && s@ == t,
            Err(e) => r == Err::<String, DinkyError>(e),
        },
{
    let k = String::from_str(key);
    match dict_lookup(d, &k) {
        None => Err(DinkyError::NotFound),
        Some(v) => match v.expect_string() {
            Some(s) => Ok(s.clone()),
            None => Err(DinkyError::Format),
        },
    }
}

fn count_field_of(d: &Vec<(String, GGValue)>, key: &str, max: u64) -> (r: Result<u64, DinkyError>)
    ensures
        match count_field(entries_view(d@), key@, max as nat) {
            Ok(n) => r == Ok::<u64, DinkyError>(n as u64) && n <= max,
            Err(e) => r == Err::<u64, DinkyError>(e),
        },
{
    let k = String::from_str(key);
    match dict_lookup(d, &k) {
        None => Err(DinkyError::NotFound),
        Some(v) => match v.expect_number() {
            Some(t) => match count_value_at_most(t.as_str(), max) {
                Some(n) => Ok(n),
                None => Err(DinkyError::Format),
            },
            None => Err(DinkyError::Format),
        },
    }
}

fn file_of(v: &GGValue) -> (r: Result<GGFile, DinkyError>)
    ensures
        match file_entry(v@) {
            Ok(f) => r matches Ok(g) && g@ == f,
            Err(e) => r matches Err(x) && x == e,
        },
{
    match v {
        GGValue::GGDict(d) => {
            proof {
                lemma_dict_view(*d);
            }
            let filename = match text_field_of(d, "filename") {
                Ok(s) => s,
                Err(e) => {
                    return Err(e);
                },
            };
            let offset = match count_field_of(d, "offset", u64::MAX) {
                Ok(n) => n,
                Err(e) => {
                    return Err(e);
                },
            };
            let size = match count_field_of(d, "size", usize::MAX as u64) {
                Ok(n) => n as usize,
                Err(e) => {
                    return Err(e);
                },
            };
            Ok(GGFile { filename, size, offset })
        },
        _ => Err(DinkyError::Format),
    }
}

impl GGValue {
    /// The entries, when the value is a dictionary.
    pub fn expect_dict(&self) -> (r: Option<&Vec<(String, GGValue)>>)
        ensures
            match self {
                GGValue::GGDict(d) => r == Some(d),
                _ => r is None,
            },
    {
        match self {
            GGValue::GGDict(d) => Some(d),
            _ => None,
        }
    }

    /// The items, when the value is a list.
    pub fn expect_list(&self) -> (r: Option<&Vec<GGValue>>)
        ensures
            match self {
                GGValue::GGList(l) => r == Some(l),
                _ => r is None,
            },
    {
        match self {
            GGValue::GGList(l) => Some(l),
            _ => None,
        }
    }

    /// The text, when the value is a string.
    pub fn expect_string(&self) -> (r: Option<&String>)
        ensures
            match self {
                GGValue::GGString(s) => r == Some(s),
                _ => r is None,
            },
    {
        match self {
            GGValue::GGString(s) => Some(s),
            _ => None,
        }
    }

    /// The decimal text, when the value is a number.
    pub fn expect_number(&self) -> (r: Option<&String>)
        ensures
            match self {
                GGValue::GGNumber(s) => r == Some(s),
                _ => r is None,
            },
    {
        match self {
            GGValue::GGNumber(s) => Some(s),
            _ => None,
        }
    }

    /// The archive entries that this directory lists, in list order. Fails
    /// with `NotFound` when the `files` key or an entry's field is missing,
    /// and with `Format` when a value has the wrong kind or a size or offset
    /// is not a whole number in range.
    pub fn get_files(&self) -> (r: Result<Vec<GGFile>, DinkyError>)
        ensures
            files_result(r) == directory_files(self@),
    {
        let d = match self {
            GGValue::GGDict(d) => d,
            _ => {
                return Err(DinkyError::Format);
            },
        };
        proof {
            lemma_dict_view(*d);
        }
        let k = String::from_str("files");
        let items = match dict_lookup(d, &k) {
            None => {
                return Err(DinkyError::NotFound);
            },
            Some(v) => match v {
                GGValue::GGList(l) => l,
                _ => {
                    return Err(DinkyError::Format);
                },
            },
        };
        proof {
            lemma_list_view(*items);
        }
        let ghost iv = items_view(items@);
        let mut files: Vec<GGFile> = Vec::new();
        let mut i: usize = 0;
        assert(directory_files(self@) == files_from(iv));
        assert(iv.take(0) =~= Seq::<Value>::empty());
        assert(files_view(files@) =~= Seq::<FileView>::empty());
        while i < items.len()
            invariant
                iv == items_view(items@),
                directory_files(self@) == files_from(iv),
                i <= items@.len(),
                files_from(iv.take(i as int)) == Ok::<Seq<FileView>, DinkyError>(files_view(files@)),
            decreases items@.len() - i,
        {
            assert(iv.take(i + 1).drop_last() =~= iv.take(i as int));
            let f = match file_of(&items[i]) {
                Ok(f) => f,
                Err(e) => {
                    proof {
                        assert(iv.take(i + 1).last() == items@[i as int]@);
                        assert(files_from(iv.take(i + 1)) == Err::<Seq<FileView>, DinkyError>(e));
                        lemma_files_from_fail(iv, (i + 1) as nat);
                    }
                    return Err(e);
                },
            };
            assert(files_view(files@.push(f)) =~= files_view(files@).push(f@));
            files.push(f);
            i = i + 1;
        }
        assert(iv.take(items@.len() as int) =~= iv);
        Ok(files)
    }
}

proof fn lemma_files_from_fail(items: Seq<Value>, k: nat)
    requires
        0 < k <= items.len(),
        files_from(items.take(k as int)) is Err,
    ensures
        files_from(items) == files_from(items.take(k as int)),
    decreases items.len() - k,
{
    if k == items.len() {
        assert(items.take(k as int) =~= items);
    } else {
        assert(items.take(k + 1 as int).drop_last() =~= items.take(k as int));
        lemma_files_from_fail(items, k + 1);
    }
}

} // verus!
