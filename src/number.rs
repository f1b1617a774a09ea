//! Recognising the decimal text of a container number. The container keeps
//! a number as its text; the text is accepted when it follows the grammar
//! that std documents for parsing a float:
//! `Sign? ('inf' | 'infinity' | 'nan' | Number)`, where
//! `Number ::= (Digit+ | Digit+ '.' Digit* | Digit* '.' Digit+) Exp?` and
//! `Exp ::= 'e' Sign? Digit+`, letters in any case.
use vstd::prelude::*;
use vstd::string::StrSliceExecFns;

verus! {

/// The number that a run of decimal digits spells.
pub open spec fn digits_value(s: Seq<char>) -> nat
    decreases s.len(),
{
    if s.len() == 0 {
        0
    } else {
        digits_value(s.drop_last()) * 10 + (s.last() as nat - '0' as nat) as nat
    }
}

pub open spec fn is_digit(c: char) -> bool {
    '0' <= c && c <= '9'
}

pub open spec fn all_digits(s: Seq<char>) -> bool {
    forall|i: int| 0 <= i < s.len() ==> is_digit(#[trigger] s[i])
}

/// The first position at or after `i` holding `a` or `b`, or the length.
pub open spec fn first_of(s: Seq<char>, a: char, b: char, i: nat) -> nat
    decreases s.len() - i,
{
    if i >= s.len() {
        s.len()
    } else if s[i as int] == a || s[i as int] == b {
        i
    } else {
        first_of(s, a, b, i + 1)
    }
}

/// Digits with at most one decimal point, holding at least one digit.
pub open spec fn mantissa_syntax(m: Seq<char>) -> bool {
    let d = first_of(m, '.', '.', 0);
    if d == m.len() {
        m.len() > 0 && all_digits(m)
    } else {
        m.len() >= 2 && all_digits(m.take(d as int)) && all_digits(m.skip(d + 1 as int))
    }
}

/// The text without one leading sign.
pub open spec fn unsigned(s: Seq<char>) -> Seq<char> {
    if s.len() > 0 && (s[0] == '+' || s[0] == '-') {
        s.skip(1)
    } else {
        s
    }
}

pub open spec fn exponent_syntax(x: Seq<char>) -> bool {
    x.len() == 0 || ((x[0] == 'e' || x[0] == 'E') && unsigned(x.skip(1)).len() > 0 && all_digits(
        unsigned(x.skip(1)),
    ))
}

pub open spec fn number_syntax(t: Seq<char>) -> bool {
    let e = first_of(t, 'e', 'E', 0);
    mantissa_syntax(t.take(e as int)) && exponent_syntax(t.skip(e as int))
}

/// `t` spells the word whose lower-case letters are `w` and upper-case
/// letters are `u`, each letter in either case.
pub open spec fn word_ci(t: Seq<char>, w: Seq<char>, u: Seq<char>) -> bool {
    t.len() == w.len() && t.len() == u.len() && forall|i: int|
        0 <= i < t.len() ==> #[trigger] t[i] == w[i] || t[i] == u[i]
}

/// Whether the text reads as a floating-point number.
pub open spec fn float_syntax(s: Seq<char>) -> bool {
    let t = unsigned(s);
    word_ci(t, seq!['i', 'n', 'f'], seq!['I', 'N', 'F']) || word_ci(
        t,
        seq!['i', 'n', 'f', 'i', 'n', 'i', 't', 'y'],
        seq!['I', 'N', 'F', 'I', 'N', 'I', 'T', 'Y'],
    ) || word_ci(t, seq!['n', 'a', 'n'], seq!['N', 'A', 'N']) || number_syntax(t)
}

proof fn lemma_first_of(s: Seq<char>, a: char, b: char, i: nat)
    ensures
        first_of(s, a, b, i) <= s.len(),
        first_of(s, a, b, i) < s.len() ==> s[first_of(s, a, b, i) as int] == a || s[first_of(
            s,
            a,
            b,
            i,
        ) as int] == b,
    decreases s.len() - i,
{
    if i < s.len() && s[i as int] != a && s[i as int] != b {
        lemma_first_of(s, a, b, i + 1);
    }
}

pub fn chars_of(s: &str) -> (r: Vec<char>)
    ensures
        r@ == s@,
{
    let n = s.unicode_len();
    let mut r: Vec<char> = Vec::new();
    let mut i: usize = 0;
    while i < n
        invariant
            n == s@.len(),
            i <= n,
            r@ == s@.take(i as int),
        decreases n - i,
    {
        r.push(s.get_char(i));
        assert(r@ =~= s@.take(i + 1));
        i = i + 1;
    }
    assert(s@.take(n as int) =~= s@);
    r
}

fn digits_in(v: &Vec<char>, lo: usize, hi: usize) -> (r: bool)
    requires
        lo <= hi <= v@.len(),
    ensures
        r == all_digits(v@.subrange(lo as int, hi as int)),
{
    let mut i = lo;
    while i < hi
        invariant
            lo <= i <= hi <= v@.len(),
            forall|j: int| lo <= j < i ==> is_digit(#[trigger] v@[j]),
        decreases hi - i,
    {
        if !('0' <= v[i] && v[i] <= '9') {
            assert(!is_digit(v@.subrange(lo as int, hi as int)[i - lo]));
            return false;
        }
        i = i + 1;
    }
    assert forall|j: int| 0 <= j < hi - lo implies is_digit(
        #[trigger] v@.subrange(lo as int, hi as int)[j],
    ) by {
        assert(v@.subrange(lo as int, hi as int)[j] == v@[lo + j]);
    }
    true
}

/// The first position in `lo..hi` holding `a` or `b`, or `hi`.
fn first_in(v: &Vec<char>, lo: usize, hi: usize, a: char, b: char) -> (r: usize)
    requires
        lo <= hi <= v@.len(),
    ensures
        r == lo + first_of(v@.subrange(lo as int, hi as int), a, b, 0),
        lo <= r <= hi,
{
    let ghost sub = v@.subrange(lo as int, hi as int);
    let mut i = lo;
    while i < hi && v[i] != a && v[i] != b
        invariant
            lo <= i <= hi <= v@.len(),
            sub == v@.subrange(lo as int, hi as int),
            first_of(sub, a, b, 0) == first_of(sub, a, b, (i - lo) as nat),
        decreases hi - i,
    {
        i = i + 1;
    }
    i
}

fn word_in(v: &Vec<char>, lo: usize, hi: usize, w: &[char], u: &[char]) -> (r: bool)
    requires
        lo <= hi <= v@.len(),
    ensures
        r == word_ci(v@.subrange(lo as int, hi as int), w@, u@),
{
    let ghost sub = v@.subrange(lo as int, hi as int);
    if hi - lo != w.len() || hi - lo != u.len() {
        return false;
    }
    let mut i: usize = 0;
    while i < w.len()
        invariant
            hi - lo == w@.len(),
            hi - lo == u@.len(),
            lo <= hi <= v@.len(),
            sub == v@.subrange(lo as int, hi as int),
            i <= w@.len(),
            forall|j: int| 0 <= j < i ==> #[trigger] sub[j] == w@[j] || sub[j] == u@[j],
        decreases w@.len() - i,
    {
        let c = v[lo + i];
        if c != w[i] && c != u[i] {
            assert(sub[i as int] == c);
            return false;
        }
        i = i + 1;
    }
    true
}

fn mantissa_in(v: &Vec<char>, lo: usize, hi: usize) -> (r: bool)
    requires
        lo <= hi <= v@.len(),
    ensures
        r == mantissa_syntax(v@.subrange(lo as int, hi as int)),
{
    let ghost m = v@.subrange(lo as int, hi as int);
    let d = first_in(v, lo, hi, '.', '.');
    if d == hi {
        hi > lo && digits_in(v, lo, hi)
    } else {
        assert(m.take(d - lo) =~= v@.subrange(lo as int, d as int));
        assert(m.skip(d - lo + 1) =~= v@.subrange(d + 1, hi as int));
        hi - lo >= 2 && digits_in(v, lo, d) && digits_in(v, d + 1, hi)
    }
}

fn signed_digits_in(v: &Vec<char>, lo: usize, hi: usize) -> (r: bool)
    requires
        lo <= hi <= v@.len(),
    ensures
        r == (unsigned(v@.subrange(lo as int, hi as int)).len() > 0 && all_digits(
            unsigned(v@.subrange(lo as int, hi as int)),
        )),
{
    let ghost y = v@.subrange(lo as int, hi as int);
    if lo < hi && (v[lo] == '+' || v[lo] == '-') {
        assert(unsigned(y) =~= v@.subrange(lo + 1, hi as int));
        hi - lo > 1 && digits_in(v, lo + 1, hi)
    } else {
        hi > lo && digits_in(v, lo, hi)
    }
}

fn number_in(v: &Vec<char>, lo: usize, hi: usize) -> (r: bool)
    requires
        lo <= hi <= v@.len(),
    ensures
        r == number_syntax(v@.subrange(lo as int, hi as int)),
{
    let ghost t = v@.subrange(lo as int, hi as int);
    let e = first_in(v, lo, hi, 'e', 'E');
    proof {
        lemma_first_of(t, 'e', 'E', 0);
    }
    assert(t.take(e - lo) =~= v@.subrange(lo as int, e as int));
    assert(t.skip(e - lo) =~= v@.subrange(e as int, hi as int));
    if !mantissa_in(v, lo, e) {
        return false;
    }
    if e == hi {
        return true;
    }
    assert(t.skip(e - lo).skip(1) =~= v@.subrange(e + 1, hi as int));
    signed_digits_in(v, e + 1, hi)
}

/// The value of the first `hi` characters, all digits, when it is at most `max`.
fn digits_at_most(v: &Vec<char>, hi: usize, max: u64) -> (r: Option<u64>)
    requires
        hi <= v@.len(),
        all_digits(v@.take(hi as int)),
    ensures
        r is Some <==> digits_value(v@.take(hi as int)) <= max,
        r matches Some(x) ==> x == digits_value(v@.take(hi as int)),
{
    let ghost g = v@.take(hi as int);
    let mut acc: u64 = 0;
    let mut i: usize = 0;
    assert(v@.take(0) =~= Seq::<char>::empty());
    while i < hi
        invariant
            hi <= v@.len(),
            g == v@.take(hi as int),
            all_digits(g),
            i <= hi,
            acc == digits_value(v@.take(i as int)),
            acc <= max,
        decreases hi - i,
    {
        assert(is_digit(g[i as int]));
        let d = (v[i] as u32 - '0' as u32) as u64;
        assert(v@.take(i + 1).drop_last() =~= v@.take(i as int));
        assert(digits_value(v@.take(i + 1)) == acc * 10 + d);
        if d > max || acc > (max - d) / 10 {
            proof {
                assert(acc * 10 + d > max) by (nonlinear_arith)
                    requires
                        d > max || acc > (max - d) / 10,
                        d <= max ==> max - d >= 0,
                ;
                assert(g.take(i + 1) =~= v@.take(i + 1));
                lemma_digits_value_monotone(g, (i + 1) as nat);
            }
            return None;
        }
        acc = acc * 10 + d;
        i = i + 1;
    }
    Some(acc)
}

proof fn lemma_digits_value_monotone(s: Seq<char>, k: nat)
    requires
        k <= s.len(),
    ensures
        all_digits(s) ==> digits_value(s.take(k as int)) <= digits_value(s),
    decreases s.len() - k,
{
    if k == s.len() {
        assert(s.take(k as int) =~= s);
    } else if all_digits(s) {
        lemma_digits_value_monotone(s, k + 1);
        assert(s.take(k + 1 as int).drop_last() =~= s.take(k as int));
        assert(is_digit(s[k as int]));
    }
}

pub open spec fn pow10(n: nat) -> nat
    decreases n,
{
    if n == 0 {
        1
    } else {
        10 * pow10((n - 1) as nat)
    }
}

pub open spec fn all_zeros(s: Seq<char>) -> bool {
    forall|i: int| 0 <= i < s.len() ==> #[trigger] s[i] == '0'
}

/// The digits of a mantissa with its decimal point taken out.
pub open spec fn mantissa_digits(m: Seq<char>) -> Seq<char> {
    let d = first_of(m, '.', '.', 0);
    if d == m.len() {
        m
    } else {
        m.take(d as int) + m.skip(d + 1 as int)
    }
}

/// How many digits follow a mantissa's decimal point.
pub open spec fn fraction_len(m: Seq<char>) -> nat {
    let d = first_of(m, '.', '.', 0);
    if d == m.len() {
        0
    } else {
        (m.len() - d - 1) as nat
    }
}

/// The value of an exponent part (`e`, a sign, digits), 0 when there is none.
pub open spec fn exponent_value(x: Seq<char>) -> int {
    if x.len() == 0 {
        0
    } else {
        let y = x.skip(1);
        if y.len() > 0 && y[0] == '-' {
            -(digits_value(y.skip(1)) as int)
        } else {
            digits_value(unsigned(y)) as int
        }
    }
}

/// The digits `g` scaled by ten to the power `s`, when that is a whole
/// number: every digit whose place falls below the units is zero.
pub open spec fn whole_value(g: Seq<char>, s: int) -> Option<nat> {
    if s >= 0 {
        Some(digits_value(g) * pow10(s as nat))
    } else {
        let k = if g.len() + s > 0 {
            g.len() + s
        } else {
            0
        };
        if all_zeros(g.skip(k)) {
            Some(digits_value(g.take(k)))
        } else {
            None
        }
    }
}

/// The whole, non-negative number that a number's text stands for, when it
/// stands for one: `12`, `12.0`, `1.2e1` and `1200e-2` all give 12, and
/// `-0` gives 0. Fractions, other negative values, infinities, NaN and
/// text that is no number give `None`.
pub open spec fn count_value(text: Seq<char>) -> Option<nat> {
    let t = unsigned(text);
    let e = first_of(t, 'e', 'E', 0);
    let m = t.take(e as int);
    if !number_syntax(t) {
        None
    } else {
        match whole_value(mantissa_digits(m), exponent_value(t.skip(e as int)) - fraction_len(m)) {
            Some(v) => if text.len() > 0 && text[0] == '-' && v != 0 {
                None
            } else {
                Some(v)
            },
            None => None,
        }
    }
}

/// Exponent magnitudes are read up to this bound; anything larger puts
/// every digit far outside a 64-bit count.
pub const EXPONENT_CAP: u128 = 0x40_0000_0000_0000_0000;

proof fn lemma_pow10_monotone(j: nat, k: nat)
    requires
        j <= k,
    ensures
        1 <= pow10(j) <= pow10(k),
    decreases k,
{
    if j < k {
        lemma_pow10_monotone(j, (k - 1) as nat);
    } else if k > 0 {
        lemma_pow10_monotone(0, (k - 1) as nat);
    }
}

proof fn lemma_pow10_twenty()
    ensures
        pow10(20) > u64::MAX,
{
    reveal_with_fuel(pow10, 21);
}

fn copy_range(v: &Vec<char>, lo: usize, hi: usize, out: &mut Vec<char>)
    requires
        lo <= hi <= v@.len(),
    ensures
        final(out)@ == old(out)@ + v@.subrange(lo as int, hi as int),
{
    let ghost start = out@;
    let mut i = lo;
    while i < hi
        invariant
            lo <= i <= hi <= v@.len(),
            out@ == start + v@.subrange(lo as int, i as int),
        decreases hi - i,
    {
        out.push(v[i]);
        assert(out@ =~= start + v@.subrange(lo as int, i + 1));
        i = i + 1;
    }
}

/// The value of the digits in `lo..hi`, or the cap when it is larger.
fn digits_capped(v: &Vec<char>, lo: usize, hi: usize) -> (r: u128)
    requires
        lo <= hi <= v@.len(),
        all_digits(v@.subrange(lo as int, hi as int)),
    ensures
        r == (if digits_value(v@.subrange(lo as int, hi as int)) < EXPONENT_CAP {
            digits_value(v@.subrange(lo as int, hi as int))
        } else {
            EXPONENT_CAP as nat
        }),
{
    let ghost g = v@.subrange(lo as int, hi as int);
    let mut acc: u128 = 0;
    let mut i = lo;
    assert(g.take(0) =~= Seq::<char>::empty());
    while i < hi
        invariant
            lo <= i <= hi <= v@.len(),
            g == v@.subrange(lo as int, hi as int),
            all_digits(g),
            acc == (if digits_value(g.take(i - lo)) < EXPONENT_CAP {
                digits_value(g.take(i - lo))
            } else {
                EXPONENT_CAP as nat
            }),
        decreases hi - i,
    {
        assert(is_digit(g[i - lo]));
        assert(g[i - lo] == v@[i as int]);
        let d = (v[i] as u32 - '0' as u32) as u128;
        assert(g.take(i - lo + 1).drop_last() =~= g.take(i - lo));
        let ghost before = digits_value(g.take(i - lo));
        assert(digits_value(g.take(i - lo + 1)) == before * 10 + d);
        if acc < EXPONENT_CAP {
            let next = acc * 10 + d;
            acc = if next < EXPONENT_CAP {
                next
            } else {
                EXPONENT_CAP
            };
        } else {
            assert(before * 10 + d >= before) by (nonlinear_arith);
        }
        i = i + 1;
    }
    assert(g.take(hi - lo) =~= g);
    acc
}

/// The digits times ten to the power `exact`, when at most `max`. `shift`
/// is `exact`, or a lower bound of it above 20 when `exact` is too large to
/// hold.
fn scale_up(g: &Vec<char>, shift: i128, max: u64, Ghost(exact): Ghost<int>) -> (r: Option<u64>)
    requires
        all_digits(g@),
        0 <= shift,
        shift == exact || (exact >= shift && shift > 20),
    ensures
        r is Some <==> digits_value(g@) * pow10(exact as nat) <= max,
        r matches Some(x) ==> x == digits_value(g@) * pow10(exact as nat),
{
    let ghost dvg = digits_value(g@);
    assert(g@.take(g@.len() as int) =~= g@);
    proof {
        lemma_pow10_monotone(0, exact as nat);
    }
    let base = match digits_at_most(g, g.len(), max) {
        Some(b) => b,
        None => {
            proof {
                assert(dvg * pow10(exact as nat) >= dvg) by (nonlinear_arith)
                    requires
                        pow10(exact as nat) >= 1,
                ;
            }
            return None;
        },
    };
    if base == 0 {
        assert(dvg * pow10(exact as nat) == 0) by (nonlinear_arith)
            requires
                dvg == 0,
        ;
        return Some(0);
    }
    let mut acc: u64 = base;
    let mut j: i128 = 0;
    assert(pow10(0) == 1);
    assert(dvg * pow10(0) == dvg);
    while j < shift
        invariant
            0 <= j <= shift,
            shift == exact || (exact >= shift && shift > 20),
            base == dvg,
            dvg == digits_value(g@),
            base >= 1,
            acc == dvg * pow10(j as nat),
            acc <= max,
            pow10(j as nat) <= acc,
        decreases shift - j,
    {
        assert(pow10((j + 1) as nat) == 10 * pow10(j as nat));
        assert(dvg * pow10((j + 1) as nat) == dvg * pow10(j as nat) * 10) by (nonlinear_arith)
            requires
                pow10((j + 1) as nat) == 10 * pow10(j as nat),
        ;
        if acc > max / 10 {
            proof {
                assert(acc * 10 > max) by (nonlinear_arith)
                    requires
                        acc > max / 10,
                ;
                assert(dvg * pow10((j + 1) as nat) == acc * 10);
                assert(exact >= j + 1);
                lemma_pow10_monotone((j + 1) as nat, exact as nat);
                assert(dvg * pow10(exact as nat) >= dvg * pow10((j + 1) as nat)) by (nonlinear_arith)
                    requires
                        pow10(exact as nat) >= pow10((j + 1) as nat),
                ;
                assert(dvg * pow10(exact as nat) > max);
            }
            return None;
        }
        acc = acc * 10;
        j = j + 1;
    }
    proof {
        if shift != exact {
            lemma_pow10_twenty();
            lemma_pow10_monotone(20, j as nat);
        }
    }
    Some(acc)
}

/// The first `k` digits' value when every digit after them is zero and the
/// value is at most `max`.
fn scale_down(g: &Vec<char>, k: usize, max: u64) -> (r: Option<u64>)
    requires
        k <= g@.len(),
        all_digits(g@),
    ensures
        r is Some <==> (all_zeros(g@.skip(k as int)) && digits_value(g@.take(k as int)) <= max),
        r matches Some(x) ==> x == digits_value(g@.take(k as int)),
{
    let glen = g.len();
    let mut i = k;
    while i < glen
        invariant
            k <= i <= glen == g@.len(),
            forall|j: int| k <= j < i ==> g@[j] == '0',
        decreases glen - i,
    {
        if g[i] != '0' {
            assert(g@.skip(k as int)[i - k] != '0');
            return None;
        }
        i = i + 1;
    }
    assert(all_zeros(g@.skip(k as int))) by {
        assert forall|j: int| 0 <= j < g@.skip(k as int).len() implies #[trigger] g@.skip(
            k as int,
        )[j] == '0' by {
            assert(g@.skip(k as int)[j] == g@[k + j]);
        }
    }
    assert(all_digits(g@.take(k as int))) by {
        assert forall|j: int| 0 <= j < k implies is_digit(#[trigger] g@.take(k as int)[j]) by {
            assert(g@.take(k as int)[j] == g@[j]);
        }
    }
    digits_at_most(g, k, max)
}

/// The parts of a number's text `t` (no sign): the mantissa's digits, how
/// many of them follow the point, and the exponent's sign and magnitude,
/// the magnitude capped.
fn split_number(t: &Vec<char>) -> (r: (Vec<char>, usize, bool, u128))
    requires
        number_syntax(t@),
    ensures
        ({
            let (g, frac, exp_neg, mag) = r;
            let e = first_of(t@, 'e', 'E', 0);
            let m = t@.take(e as int);
            let x = t@.skip(e as int);
            &&& g@ == mantissa_digits(m)
            &&& all_digits(g@)
            &&& frac == fraction_len(m)
            &&& mag <= EXPONENT_CAP
            &&& mag < EXPONENT_CAP ==> exponent_value(x) == (if exp_neg {
                -(mag as int)
            } else {
                mag as int
            })
            &&& mag == EXPONENT_CAP ==> (if exp_neg {
                exponent_value(x) <= -(EXPONENT_CAP as int)
            } else {
                exponent_value(x) >= EXPONENT_CAP
            })
        }),
{
    let tn = t.len();
    let ghost tt = t@;
    assert(t@.subrange(0, tn as int) =~= t@);
    let e = first_in(t, 0, tn, 'e', 'E');
    let ghost m = tt.take(e as int);
    assert(t@.subrange(0, e as int) =~= m);
    let d = first_in(t, 0, e, '.', '.');
    proof {
        lemma_first_of(tt, 'e', 'E', 0);
        lemma_first_of(m, '.', '.', 0);
    }
    let mut g: Vec<char> = Vec::new();
    copy_range(t, 0, d, &mut g);
    let frac: usize = if d < e {
        copy_range(t, d + 1, e, &mut g);
        e - d - 1
    } else {
        0
    };
    proof {
        assert(m.take(d as int) =~= t@.subrange(0, d as int));
        if d < e {
            assert(m.skip(d + 1 as int) =~= t@.subrange(d + 1, e as int));
        }
        assert(g@ =~= mantissa_digits(m));
        assert(all_digits(g@)) by {
            if d < e {
                assert forall|i: int| 0 <= i < g@.len() implies is_digit(#[trigger] g@[i]) by {
                    if i < d {
                        assert(g@[i] == m.take(d as int)[i]);
                    } else {
                        assert(g@[i] == m.skip(d + 1 as int)[i - d]);
                    }
                }
            }
        }
    }
    let ghost x = tt.skip(e as int);
    let mut exp_neg = false;
    let mut mag: u128 = 0;
    if e < tn {
        let ghost y = x.skip(1);
        assert(y =~= t@.subrange(e + 1, tn as int));
        let start: usize = if e + 1 < tn && (t[e + 1] == '+' || t[e + 1] == '-') {
            e + 2
        } else {
            e + 1
        };
        exp_neg = e + 1 < tn && t[e + 1] == '-';
        assert(unsigned(y) =~= t@.subrange(start as int, tn as int));
        mag = digits_capped(t, start, tn);
        if exp_neg {
            assert(y.skip(1) =~= unsigned(y));
        }
    } else {
        assert(x.len() == 0);
    }
    (g, frac, exp_neg, mag)
}

/// The whole number that `s` stands for (see `count_value`), when it is at
/// most `max`.
#[verifier::rlimit(40)]
pub fn count_value_at_most(s: &str, max: u64) -> (r: Option<u64>)
    ensures
        r is Some <==> (count_value(s@) is Some && count_value(s@)->Some_0 <= max),
        r matches Some(x) ==> count_value(s@) == Some(x as nat),
{
    let v = chars_of(s);
    let n = v.len();
    let neg = n > 0 && v[0] == '-';
    let lo: usize = if n > 0 && (v[0] == '+' || v[0] == '-') {
        1
    } else {
        0
    };
    let mut t: Vec<char> = Vec::new();
    copy_range(&v, lo, n, &mut t);
    let ghost tt = unsigned(s@);
    assert(t@ =~= tt);
    let tn = t.len();
    assert(t@.subrange(0, tn as int) =~= t@);
    if !number_in(&t, 0, tn) {
        return None;
    }
    let (g, frac, exp_neg, mag) = split_number(&t);
    let ghost e = first_of(tt, 'e', 'E', 0);
    let ghost m = tt.take(e as int);
    let ghost exact = exponent_value(tt.skip(e as int)) - fraction_len(m);
    let shift: i128 = if exp_neg {
        -(mag as i128) - frac as i128
    } else {
        mag as i128 - frac as i128
    };
    let glen = g.len();
    assert(shift >= 0 ==> shift == exact || (exact >= shift && shift > 20));
    assert(shift < 0 ==> shift == exact || (exact <= shift && -shift > g@.len()));
    let value: u64 = if shift >= 0 {
        match scale_up(&g, shift, max, Ghost(exact)) {
            Some(x) => x,
            None => {
                return None;
            },
        }
    } else {
        let k: usize = if (glen as i128) + shift > 0 {
            ((glen as i128) + shift) as usize
        } else {
            0
        };
        assert(k as int == (if g@.len() + exact > 0 {
            g@.len() + exact
        } else {
            0
        }));
        match scale_down(&g, k, max) {
            Some(x) => x,
            None => {
                return None;
            },
        }
    };
    if neg && value != 0 {
        return None;
    }
    Some(value)
}

/// Whether `s` is the text of a floating-point number.
pub fn is_float_text(s: &str) -> (r: bool)
    ensures
        r == float_syntax(s@),
{
    let v = chars_of(s);
    let n = v.len();
    assert(v@.subrange(0, n as int) =~= s@);
    let lo: usize = if n > 0 && (v[0] == '+' || v[0] == '-') {
        1
    } else {
        0
    };
    assert(v@.subrange(lo as int, n as int) =~= unsigned(s@));
    let inf = ['i', 'n', 'f'];
    let inf_u = ['I', 'N', 'F'];
    let infinity = ['i', 'n', 'f', 'i', 'n', 'i', 't', 'y'];
    let infinity_u = ['I', 'N', 'F', 'I', 'N', 'I', 'T', 'Y'];
    let nan = ['n', 'a', 'n'];
    let nan_u = ['N', 'A', 'N'];
    assert(inf@ =~= seq!['i', 'n', 'f']);
    assert(inf_u@ =~= seq!['I', 'N', 'F']);
    assert(infinity@ =~= seq!['i', 'n', 'f', 'i', 'n', 'i', 't', 'y']);
    assert(infinity_u@ =~= seq!['I', 'N', 'F', 'I', 'N', 'I', 'T', 'Y']);
    assert(nan@ =~= seq!['n', 'a', 'n']);
    assert(nan_u@ =~= seq!['N', 'A', 'N']);
    word_in(&v, lo, n, &inf, &inf_u) || word_in(&v, lo, n, &infinity, &infinity_u) || word_in(
        &v,
        lo,
        n,
        &nan,
        &nan_u,
    ) || number_in(&v, lo, n)
}

} // verus!
