//! The rule engine: a typed boolean-expression evaluator over the request
//! context.
//!
//! A rule is a tree of `And` / `Or` / `Not` nodes over `Field` leaves. A
//! side map assigns each field a type that governs how context values are
//! compared. Evaluation either produces a boolean or fails; the merge
//! engine treats a failed rule as "did not match".
//!
//! Ordering choices that this module fixes:
//! - strings compare character by character, which for UTF-8 text agrees
//!   with byte order;
//! - `Float` ordering reads the IEEE-754 bit patterns and fails the
//!   comparison when either side is a NaN;
//! - a semantic-version component is a run of decimal digits; components
//!   that do not parse are ignored, and a missing trailing component
//!   counts as zero.

use vstd::prelude::*;
use vstd::string::StrSliceExecFns;
use crate::error::ExperimentError;
use crate::json::{JsonValue, JsonSpec, json_view, entries_view, arr_view, obj_get, obj_get_value};
use crate::strings::{chars_lt, str_eq, str_lt, lemma_chars_lt_total};

verus! {

/// The type assigned to a context field; it picks the comparison used for
/// that field's values.
#[derive(Debug, Clone, Copy, PartialEq, Eq, Structural)]
pub enum FieldType {
    String,
    Int,
    Float,
    Bool,
    SemVer,
}

/// The operator of a `Field` leaf. The boolean tokens `And`, `Or` and
/// `Not` exist on the wire but may not appear on leaves.
#[derive(Debug, Clone, PartialEq, Eq, Structural)]
pub enum Op {
    Eq,
    Neq,
    Gt,
    Gte,
    Lt,
    Lte,
    In,
    NotIn,
    Like,
    NotLike,
    And,
    Or,
    Not,
}

/// The outcome of a comparison.
#[derive(Debug, Clone, Copy, PartialEq, Eq, Structural)]
pub enum CmpOrder {
    Less,
    Equal,
    Greater,
}

/// A rule node: a boolean combinator or a typed test on one field.
pub enum Node {
    And { children: Vec<Node> },
    Or { children: Vec<Node> },
    Not { child: Box<Node> },
    Field { field: String, op: Op, values: Vec<JsonValue> },
}

/// The model of a field-type map.
pub open spec fn ft_view(es: Seq<(String, FieldType)>) -> Seq<(Seq<char>, FieldType)> {
    Seq::new(es.len(), |i: int| (es[i].0@, es[i].1))
}

/// Index of the first field-type entry with name `k`, or `-1`.
pub open spec fn ft_index_of(s: Seq<(Seq<char>, FieldType)>, k: Seq<char>) -> int
    decreases s.len(),
{
    if s.len() == 0 {
        -1
    } else if s[0].0 == k {
        0
    } else {
        let r = ft_index_of(s.drop_first(), k);
        if r < 0 {
            -1
        } else {
            r + 1
        }
    }
}

/// The declared type of field `k`, if any.
pub open spec fn ft_get(s: Seq<(Seq<char>, FieldType)>, k: Seq<char>) -> Option<FieldType> {
    if ft_index_of(s, k) >= 0 {
        Some(s[ft_index_of(s, k)].1)
    } else {
        None
    }
}

/// `ft_index_of` finds the first matching entry and nothing else.
pub proof fn lemma_ft_index_of(s: Seq<(Seq<char>, FieldType)>, k: Seq<char>)
    ensures
        ft_index_of(s, k) == -1 || (0 <= ft_index_of(s, k) < s.len()),
        ft_index_of(s, k) >= 0 ==> s[ft_index_of(s, k)].0 == k,
        forall|j: int|
            0 <= j < s.len() && (ft_index_of(s, k) == -1 || j < ft_index_of(s, k)) ==> s[j].0 != k,
    decreases s.len(),
{
    if s.len() > 0 && s[0].0 != k {
        lemma_ft_index_of(s.drop_first(), k);
        assert forall|j: int|
            0 <= j < s.len() && (ft_index_of(s, k) == -1 || j < ft_index_of(s, k)) implies s[j].0
            != k by {
            if j > 0 {
                assert(s.drop_first()[j - 1] == s[j]);
            }
        }
    }
}

/// Look a field's declared type up, by name.
#[verifier::loop_isolation(false)]
pub fn ft_find(entries: &Vec<(String, FieldType)>, key: &str) -> (r: Option<FieldType>)
    ensures
        r == ft_get(ft_view(entries@), key@),
{
    proof {
        lemma_ft_index_of(ft_view(entries@), key@);
    }
    let mut i: usize = 0;
    while i < entries.len()
        invariant
            i <= entries@.len(),
            forall|j: int| 0 <= j < i ==> ft_view(entries@)[j].0 != key@,
        decreases entries@.len() - i,
    {
        if str_eq(entries[i].0.as_str(), key) {
            proof {
                assert(ft_view(entries@)[i as int].0 == key@);
            }
            return Some(entries[i].1);
        }
        proof {
            assert(ft_view(entries@)[i as int].0 == entries@[i as int].0@);
        }
        i = i + 1;
    }
    None
}

/// Total character-sequence comparison.
pub open spec fn spec_cmp_chars(a: Seq<char>, b: Seq<char>) -> CmpOrder {
    if a == b {
        CmpOrder::Equal
    } else if chars_lt(a, b) {
        CmpOrder::Less
    } else {
        CmpOrder::Greater
    }
}

/// Compare two strings character by character.
pub fn str_cmp(a: &str, b: &str) -> (r: CmpOrder)
    ensures
        r == spec_cmp_chars(a@, b@),
{
    proof {
        lemma_chars_lt_total(a@, b@);
    }
    if str_eq(a, b) {
        CmpOrder::Equal
    } else if str_lt(a, b) {
        CmpOrder::Less
    } else {
        CmpOrder::Greater
    }
}

/// Whether a binary64 bit pattern encodes a NaN: exponent all ones with a
/// nonzero mantissa.
pub open spec fn f64_is_nan(bits: u64) -> bool {
    (bits >> 52) & 0x7ff == 0x7ff && bits & 0xfffffffffffff != 0
}

/// IEEE-754 ordering of two binary64 bit patterns. The two zeroes are
/// equal; otherwise the sign decides, and within one sign the magnitude
/// decides. A NaN on either side fails the comparison.
pub open spec fn f64_cmp(a: u64, b: u64) -> Option<CmpOrder> {
    if f64_is_nan(a) || f64_is_nan(b) {
        None
    } else {
        let mag_a = a & 0x7fffffffffffffff;
        let mag_b = b & 0x7fffffffffffffff;
        let neg_a = (a >> 63) == 1;
        let neg_b = (b >> 63) == 1;
        if mag_a == 0 && mag_b == 0 {
            Some(CmpOrder::Equal)
        } else if neg_a != neg_b {
            if neg_a {
                Some(CmpOrder::Less)
            } else {
                Some(CmpOrder::Greater)
            }
        } else if mag_a == mag_b {
            Some(CmpOrder::Equal)
        } else if (mag_a < mag_b) != neg_a {
            Some(CmpOrder::Less)
        } else {
            Some(CmpOrder::Greater)
        }
    }
}

/// Compare two binary64 bit patterns in IEEE-754 order.
pub fn f64_cmp_bits(a: u64, b: u64) -> (r: Option<CmpOrder>)
    ensures
        r == f64_cmp(a, b),
{
    let a_nan = (a >> 52) & 0x7ff == 0x7ff && a & 0xfffffffffffff != 0;
    let b_nan = (b >> 52) & 0x7ff == 0x7ff && b & 0xfffffffffffff != 0;
    if a_nan || b_nan {
        return None;
    }
    let mag_a = a & 0x7fffffffffffffff;
    let mag_b = b & 0x7fffffffffffffff;
    let neg_a = (a >> 63) == 1;
    let neg_b = (b >> 63) == 1;
    if mag_a == 0 && mag_b == 0 {
        Some(CmpOrder::Equal)
    } else if neg_a != neg_b {
        if neg_a {
            Some(CmpOrder::Less)
        } else {
            Some(CmpOrder::Greater)
        }
    } else if mag_a == mag_b {
        Some(CmpOrder::Equal)
    } else if (mag_a < mag_b) != neg_a {
        Some(CmpOrder::Less)
    } else {
        Some(CmpOrder::Greater)
    }
}

/// Index of the first occurrence of `c`, or `-1`.
pub open spec fn first_index_of_char(s: Seq<char>, c: char) -> int
    decreases s.len(),
{
    if s.len() == 0 {
        -1
    } else if s[0] == c {
        0
    } else {
        let r = first_index_of_char(s.drop_first(), c);
        if r < 0 {
            -1
        } else {
            r + 1
        }
    }
}

/// `first_index_of_char` finds the first occurrence and nothing else.
pub proof fn lemma_first_index_of_char(s: Seq<char>, c: char)
    ensures
        first_index_of_char(s, c) == -1 || (0 <= first_index_of_char(s, c) < s.len()),
        first_index_of_char(s, c) >= 0 ==> s[first_index_of_char(s, c)] == c,
        forall|j: int|
            0 <= j < s.len() && (first_index_of_char(s, c) == -1 || j < first_index_of_char(s, c))
                ==> s[j] != c,
    decreases s.len(),
{
    if s.len() > 0 && s[0] != c {
        lemma_first_index_of_char(s.drop_first(), c);
        assert forall|j: int|
            0 <= j < s.len() && (first_index_of_char(s, c) == -1 || j < first_index_of_char(s, c))
            implies s[j] != c by {
            if j > 0 {
                assert(s.drop_first()[j - 1] == s[j]);
            }
        }
    }
}

/// Split at every occurrence of `c`; `n` separators give `n + 1` pieces.
pub open spec fn split_on_char(s: Seq<char>, c: char) -> Seq<Seq<char>>
    decreases s.len(),
{
    let d = first_index_of_char(s, c);
    if d < 0 || d >= s.len() {
        seq![s]
    } else {
        seq![s.take(d)] + split_on_char(s.skip(d + 1), c)
    }
}

/// Find the first occurrence of `c` in `s`.
#[verifier::loop_isolation(false)]
pub fn find_char(s: &str, c: char) -> (r: Option<usize>)
    ensures
        match r {
            Some(d) => d < s@.len() && first_index_of_char(s@, c) == d as int,
            None => first_index_of_char(s@, c) == -1,
        },
{
    proof {
        lemma_first_index_of_char(s@, c);
    }
    let n = s.unicode_len();
    let mut i: usize = 0;
    while i < n
        invariant
            i <= s@.len(),
            n == s@.len(),
            forall|j: int| 0 <= j < i ==> s@[j] != c,
        decreases n - i,
    {
        if s.get_char(i) == c {
            return Some(i);
        }
        i = i + 1;
    }
    None
}

/// Split `s` at every occurrence of `c`.
pub fn split_str(s: &str, c: char) -> (r: Vec<String>)
    ensures
        Seq::new(r@.len(), |i: int| r@[i]@) == split_on_char(s@, c),
    decreases s@.len(),
{
    let n = s.unicode_len();
    match find_char(s, c) {
        None => {
            let mut out: Vec<String> = Vec::new();
            out.push(s.to_owned());
            proof {
                assert(Seq::new(out@.len(), |i: int| out@[i]@) =~= seq![s@]);
            }
            out
        },
        Some(d) => {
            let head = s.substring_char(0, d);
            let rest = s.substring_char(d + 1, n);
            proof {
                assert(head@ =~= s@.take(d as int));
                assert(rest@ =~= s@.skip(d + 1));
            }
            let mut tail = split_str(rest, c);
            let mut out: Vec<String> = Vec::new();
            out.push(head.to_owned());
            out.append(&mut tail);
            proof {
                assert(Seq::new(out@.len(), |i: int| out@[i]@) =~= seq![s@.take(d as int)]
                    + split_on_char(s@.skip(d + 1), c));
            }
            out
        },
    }
}

/// Whether `c` is a decimal digit.
pub open spec fn is_digit(c: char) -> bool {
    '0' <= c <= '9'
}

/// The value of a digit string, most significant digit first.
pub open spec fn digits_val(s: Seq<char>) -> int
    decreases s.len(),
{
    if s.len() == 0 {
        0
    } else {
        digits_val(s.take(s.len() - 1)) * 10 + (s[s.len() - 1] as int - '0' as int)
    }
}

/// A numeric component: a nonempty run of decimal digits whose value fits
/// an unsigned 32-bit integer.
pub open spec fn parse_u32(s: Seq<char>) -> Option<u32> {
    if s.len() == 0 || !(forall|j: int| 0 <= j < s.len() ==> is_digit(s[j])) || digits_val(s)
        > u32::MAX {
        None
    } else {
        Some(digits_val(s) as u32)
    }
}

/// A digit string's value only grows as digits are appended.
pub proof fn lemma_digits_val_grows(s: Seq<char>, i: int)
    requires
        0 <= i <= s.len(),
        forall|j: int| 0 <= j < s.len() ==> is_digit(s[j]),
        forall|j: int| 0 <= j < s.len() ==> digits_val(s.take(j)) >= 0,
    ensures
        digits_val(s.take(i)) <= digits_val(s),
    decreases s.len() - i,
{
    if i < s.len() {
        assert(s.take(i + 1).take(i) =~= s.take(i));
        assert(digits_val(s.take(i + 1)) == digits_val(s.take(i)) * 10 + (s[i] as int
            - '0' as int));
        lemma_digits_val_grows(s, i + 1);
        assert(s.take(s.len() as int) =~= s);
    } else {
        assert(s.take(i) =~= s);
    }
}

/// A digit string's value is never negative.
pub proof fn lemma_digits_val_nonneg(s: Seq<char>)
    requires
        forall|j: int| 0 <= j < s.len() ==> is_digit(s[j]),
    ensures
        digits_val(s) >= 0,
        forall|j: int| 0 <= j <= s.len() ==> digits_val(s.take(j)) >= 0,
    decreases s.len(),
{
    if s.len() > 0 {
        assert(s.take(s.len() - 1).len() == s.len() - 1);
        assert(forall|j: int|
            0 <= j < s.take(s.len() - 1).len() ==> is_digit(#[trigger] s.take(s.len() - 1)[j]));
        lemma_digits_val_nonneg(s.take(s.len() - 1));
        assert forall|j: int| 0 <= j <= s.len() implies digits_val(s.take(j)) >= 0 by {
            if j < s.len() {
                assert(s.take(s.len() - 1).take(j) =~= s.take(j));
            } else {
                assert(s.take(j) =~= s);
            }
        }
    } else {
        assert forall|j: int| 0 <= j <= s.len() implies digits_val(s.take(j)) >= 0 by {
            assert(s.take(j) =~= s);
        }
    }
}

/// Parse a run of decimal digits as an unsigned 32-bit integer.
#[verifier::loop_isolation(false)]
pub fn parse_u32_str(s: &str) -> (r: Option<u32>)
    ensures
        r == parse_u32(s@),
{
    let n = s.unicode_len();
    if n == 0 {
        return None;
    }
    let mut acc: u64 = 0;
    let mut i: usize = 0;
    while i < n
        invariant
            0 < n == s@.len(),
            i <= n,
            forall|j: int| 0 <= j < i ==> is_digit(s@[j]),
            acc == digits_val(s@.take(i as int)),
            acc <= u32::MAX,
        decreases n - i,
    {
        let c = s.get_char(i);
        if c < '0' || c > '9' {
            return None;
        }
        let d: u64 = (c as u32 - '0' as u32) as u64;
        proof {
            assert(s@.take(i + 1).take(i as int) =~= s@.take(i as int));
            assert(s@.take(i + 1)[i as int] == s@[i as int]);
        }
        acc = acc * 10 + d;
        i = i + 1;
        if acc > u32::MAX as u64 {
            proof {
                if forall|j: int| 0 <= j < s@.len() ==> is_digit(s@[j]) {
                    lemma_digits_val_nonneg(s@);
                    lemma_digits_val_grows(s@, i as int);
                    assert(s@.take(n as int) =~= s@);
                }
            }
            return None;
        }
    }
    proof {
        assert(s@.take(n as int) =~= s@);
    }
    Some(acc as u32)
}

/// The numeric components of a version string: each piece that parses,
/// in order; pieces that do not parse are dropped.
pub open spec fn numeric_parts(pieces: Seq<Seq<char>>, i: int) -> Seq<u32>
    decreases pieces.len() - i,
{
    if i < 0 || i >= pieces.len() {
        Seq::empty()
    } else {
        let head: Seq<u32> = match parse_u32(pieces[i]) {
            Some(v) => seq![v],
            None => Seq::empty(),
        };
        head + numeric_parts(pieces, i + 1)
    }
}

/// Componentwise comparison of two version-number lists; a missing
/// trailing component counts as zero.
pub open spec fn cmp_parts(a: Seq<u32>, b: Seq<u32>) -> CmpOrder
    decreases a.len() + b.len(),
{
    if a.len() == 0 && b.len() == 0 {
        CmpOrder::Equal
    } else {
        let ha: u32 = if a.len() > 0 {
            a[0]
        } else {
            0
        };
        let hb: u32 = if b.len() > 0 {
            b[0]
        } else {
            0
        };
        if ha < hb {
            CmpOrder::Less
        } else if ha > hb {
            CmpOrder::Greater
        } else {
            cmp_parts(
                if a.len() > 0 {
                    a.drop_first()
                } else {
                    a
                },
                if b.len() > 0 {
                    b.drop_first()
                } else {
                    b
                },
            )
        }
    }
}

/// The tail of a component list from position `i` on; empty once `i` runs
/// past the end.
pub open spec fn tail_from(s: Seq<u32>, i: int) -> Seq<u32> {
    if 0 <= i <= s.len() {
        s.skip(i)
    } else {
        Seq::empty()
    }
}

/// Semantic-version comparison of two strings: split on dots, keep the
/// components that parse, compare componentwise with zero extension.
/// Fails when either side has no numeric component at all.
pub open spec fn spec_semver_cmp(l: Seq<char>, r: Seq<char>) -> Option<CmpOrder> {
    let la = numeric_parts(split_on_char(l, '.'), 0);
    let rb = numeric_parts(split_on_char(r, '.'), 0);
    if la.len() == 0 || rb.len() == 0 {
        None
    } else {
        Some(cmp_parts(la, rb))
    }
}

/// The numeric components of the pieces of a version string.
#[verifier::loop_isolation(false)]
fn numeric_parts_of(pieces: &Vec<String>) -> (r: Vec<u32>)
    ensures
        r@ == numeric_parts(Seq::new(pieces@.len(), |i: int| pieces@[i]@), 0),
{
    let ghost pv = Seq::new(pieces@.len(), |i: int| pieces@[i]@);
    let mut out: Vec<u32> = Vec::new();
    let mut i: usize = 0;
    while i < pieces.len()
        invariant
            i <= pieces@.len(),
            out@ + numeric_parts(pv, i as int) == numeric_parts(pv, 0),
        decreases pieces@.len() - i,
    {
        let ghost before = out@;
        match parse_u32_str(pieces[i].as_str()) {
            Some(v) => {
                out.push(v);
                proof {
                    assert(out@ =~= before + seq![v]);
                    assert(before + numeric_parts(pv, i as int) == numeric_parts(pv, 0));
                    assert(numeric_parts(pv, i as int) == seq![v] + numeric_parts(pv, i + 1));
                    assert(out@ + numeric_parts(pv, i + 1) =~= before + numeric_parts(
                        pv,
                        i as int,
                    ));
                }
            },
            None => {
                proof {
                    assert(numeric_parts(pv, i as int) == numeric_parts(pv, i + 1));
                }
            },
        }
        i = i + 1;
    }
    proof {
        assert(out@ + numeric_parts(pv, i as int) =~= out@);
    }
    out
}

/// Compare two semantic versions. The result is exactly
/// [`spec_semver_cmp`] of the two strings; the error comes precisely when
/// either side has no numeric component.
#[verifier::loop_isolation(false)]
pub fn compare_semver(left: &str, right: &str) -> (r: Result<CmpOrder, ExperimentError>)
    ensures
        match spec_semver_cmp(left@, right@) {
            Some(c) => r == Ok::<CmpOrder, ExperimentError>(c),
            None => r matches Err(e) && e matches ExperimentError::InvalidRule(m) && m@
                == "Invalid semver format"@,
        },
{
    let lp = split_str(left, '.');
    let rp = split_str(right, '.');
    let la = numeric_parts_of(&lp);
    let rb = numeric_parts_of(&rp);
    if la.len() == 0 || rb.len() == 0 {
        return Err(ExperimentError::InvalidRule(String::from_str("Invalid semver format")));
    }
    let mut i: usize = 0;
    let ghost av = la@;
    let ghost bv = rb@;
    proof {
        assert(tail_from(av, 0) =~= av);
        assert(tail_from(bv, 0) =~= bv);
    }
    loop
        invariant
            la@ == av,
            rb@ == bv,
            cmp_parts(av, bv) == cmp_parts(tail_from(av, i as int), tail_from(bv, i as int)),
            i <= av.len() + bv.len(),
        decreases av.len() + bv.len() - i,
    {
        let ghost ta = tail_from(av, i as int);
        let ghost tb = tail_from(bv, i as int);
        if i >= la.len() && i >= rb.len() {
            proof {
                assert(ta.len() == 0);
                assert(tb.len() == 0);
            }
            return Ok(CmpOrder::Equal);
        }
        let ha: u32 = if i < la.len() {
            la[i]
        } else {
            0
        };
        let hb: u32 = if i < rb.len() {
            rb[i]
        } else {
            0
        };
        proof {
            if i < av.len() {
                assert(ta[0] == av[i as int]);
            } else {
                assert(ta.len() == 0);
            }
            if i < bv.len() {
                assert(tb[0] == bv[i as int]);
            } else {
                assert(tb.len() == 0);
            }
        }
        if ha < hb {
            return Ok(CmpOrder::Less);
        }
        if ha > hb {
            return Ok(CmpOrder::Greater);
        }
        proof {
            if i < av.len() {
                assert(ta.drop_first() =~= tail_from(av, i + 1));
            } else {
                assert(tail_from(av, i + 1) =~= ta);
            }
            if i < bv.len() {
                assert(tb.drop_first() =~= tail_from(bv, i + 1));
            } else {
                assert(tail_from(bv, i + 1) =~= tb);
            }
        }
        i = i + 1;
    }
}

/// `t` begins with `p`.
pub open spec fn chars_starts_with(t: Seq<char>, p: Seq<char>) -> bool {
    t.len() >= p.len() && t.take(p.len() as int) == p
}

/// `t` ends with `p`.
pub open spec fn chars_ends_with(t: Seq<char>, p: Seq<char>) -> bool {
    t.len() >= p.len() && t.skip(t.len() - p.len()) == p
}

/// `p` occurs somewhere inside `t`.
pub open spec fn chars_contains(t: Seq<char>, p: Seq<char>) -> bool {
    exists|i: int| 0 <= i <= t.len() - p.len() && #[trigger] t.subrange(i, i + p.len()) == p
}

/// Whether `t` begins with `p`.
#[verifier::loop_isolation(false)]
pub fn starts_with_str(t: &str, p: &str) -> (r: bool)
    ensures
        r == chars_starts_with(t@, p@),
{
    let tn = t.unicode_len();
    let pn = p.unicode_len();
    if pn > tn {
        return false;
    }
    let mut i: usize = 0;
    while i < pn
        invariant
            i <= pn,
            pn == p@.len(),
            tn == t@.len(),
            pn <= tn,
            forall|j: int| 0 <= j < i ==> t@[j] == p@[j],
        decreases pn - i,
    {
        if t.get_char(i) != p.get_char(i) {
            proof {
                assert(t@.take(p@.len() as int)[i as int] != p@[i as int]);
            }
            return false;
        }
        i = i + 1;
    }
    proof {
        assert(t@.take(p@.len() as int) =~= p@);
    }
    true
}

/// Whether `t` ends with `p`.
#[verifier::loop_isolation(false)]
pub fn ends_with_str(t: &str, p: &str) -> (r: bool)
    ensures
        r == chars_ends_with(t@, p@),
{
    let tn = t.unicode_len();
    let pn = p.unicode_len();
    if pn > tn {
        return false;
    }
    let off = tn - pn;
    let mut i: usize = 0;
    while i < pn
        invariant
            i <= pn,
            pn == p@.len(),
            tn == t@.len(),
            off == tn - pn,
            forall|j: int| 0 <= j < i ==> t@[off + j] == p@[j],
        decreases pn - i,
    {
        if t.get_char(off + i) != p.get_char(i) {
            proof {
                assert(t@.skip(t@.len() - p@.len())[i as int] != p@[i as int]);
            }
            return false;
        }
        i = i + 1;
    }
    proof {
        assert(t@.skip(t@.len() - p@.len()) =~= p@);
    }
    true
}

/// Whether `t` matches `p` when laid over position `at`.
#[verifier::loop_isolation(false)]
fn matches_at(t: &str, p: &str, at: usize) -> (r: bool)
    requires
        at + p@.len() <= t@.len(),
        t@.len() <= usize::MAX,
    ensures
        r == (t@.subrange(at as int, at + p@.len()) == p@),
{
    let pn = p.unicode_len();
    let mut i: usize = 0;
    while i < pn
        invariant
            i <= pn,
            pn == p@.len(),
            forall|j: int| 0 <= j < i ==> t@[at + j] == p@[j],
        decreases pn - i,
    {
        if t.get_char(at + i) != p.get_char(i) {
            proof {
                assert(t@.subrange(at as int, at + p@.len())[i as int] != p@[i as int]);
            }
            return false;
        }
        i = i + 1;
    }
    proof {
        assert(t@.subrange(at as int, at + p@.len()) =~= p@);
    }
    true
}

/// Whether `p` occurs somewhere inside `t`.
#[verifier::loop_isolation(false)]
pub fn contains_str(t: &str, p: &str) -> (r: bool)
    ensures
        r == chars_contains(t@, p@),
{
    let tn = t.unicode_len();
    let pn = p.unicode_len();
    if pn > tn {
        return false;
    }
    if pn == 0 {
        proof {
            assert(t@.subrange(0, 0 + p@.len() as int) =~= p@);
        }
        return true;
    }
    let mut at: usize = 0;
    while at <= tn - pn
        invariant
            pn <= tn,
            tn == t@.len(),
            pn == p@.len(),
            1 <= pn,
            at <= tn - pn + 1,
            forall|k: int| 0 <= k < at ==> #[trigger] t@.subrange(k, k + p@.len()) != p@,
        decreases tn - pn + 1 - at,
    {
        if matches_at(t, p, at) {
            return true;
        }
        at = at + 1;
    }
    false
}

/// The wildcard match that `Like` rules use. `*` matches any substring;
/// precisely the patterns `*`, `prefix*`, `*suffix` and `prefix*suffix`
/// are honoured, a pattern without `*` means equality, and any more
/// complex pattern falls back to containment of its first segment.
pub open spec fn spec_pattern_match(text: Seq<char>, pat: Seq<char>) -> bool {
    if pat == seq!['*'] {
        true
    } else if first_index_of_char(pat, '*') < 0 {
        text == pat
    } else {
        let parts = split_on_char(pat, '*');
        if pat.len() > 0 && pat[0] == '*' && parts.len() == 2 {
            chars_ends_with(text, parts[1])
        } else if pat.len() > 0 && pat[pat.len() - 1] == '*' && parts.len() == 2 {
            chars_starts_with(text, parts[0])
        } else if parts.len() == 2 {
            chars_starts_with(text, parts[0]) && chars_ends_with(text, parts[1])
        } else {
            chars_contains(text, parts[0])
        }
    }
}

/// Match `text` against a wildcard pattern; see [`spec_pattern_match`].
pub fn simple_pattern_match(text: &str, pattern: &str) -> (r: bool)
    ensures
        r == spec_pattern_match(text@, pattern@),
{
    let pn = pattern.unicode_len();
    if pn == 1 && pattern.get_char(0) == '*' {
        proof {
            assert(pattern@ =~= seq!['*']);
        }
        return true;
    }
    proof {
        assert(pattern@ != seq!['*']);
    }
    match find_char(pattern, '*') {
        None => str_eq(text, pattern),
        Some(_) => {
            let parts = split_str(pattern, '*');
            let ghost pv = Seq::new(parts@.len(), |i: int| parts@[i]@);
            proof {
                assert(pv == split_on_char(pattern@, '*'));
            }
            let first_is_star = pattern.get_char(0) == '*';
            let last_is_star = pattern.get_char(pn - 1) == '*';
            if first_is_star && parts.len() == 2 {
                proof {
                    assert(parts@[1]@ == pv[1]);
                }
                ends_with_str(text, parts[1].as_str())
            } else if last_is_star && parts.len() == 2 {
                proof {
                    assert(parts@[0]@ == pv[0]);
                }
                starts_with_str(text, parts[0].as_str())
            } else if parts.len() == 2 {
                let sw = starts_with_str(text, parts[0].as_str());
                let ew = ends_with_str(text, parts[1].as_str());
                sw && ew
            } else {
                contains_str(text, parts[0].as_str())
            }
        },
    }
}

/// Comparison of two signed integers.
pub open spec fn cmp_int(a: int, b: int) -> CmpOrder {
    if a < b {
        CmpOrder::Less
    } else if a > b {
        CmpOrder::Greater
    } else {
        CmpOrder::Equal
    }
}

/// Comparison of two context values under a field type. `None` is a
/// failed comparison: a value of the wrong shape for the type, or a NaN
/// under `Float`.
pub open spec fn spec_compare_values(l: JsonSpec, r: JsonSpec, t: FieldType) -> Option<CmpOrder> {
    match t {
        FieldType::String => match (l, r) {
            (JsonSpec::Str(a), JsonSpec::Str(b)) => Some(spec_cmp_chars(a, b)),
            _ => None,
        },
        FieldType::Int => match (l, r) {
            (JsonSpec::Num { int_val: Some(a), .. }, JsonSpec::Num { int_val: Some(b), .. }) => {
                Some(cmp_int(a as int, b as int))
            },
            _ => None,
        },
        FieldType::Float => match (l, r) {
            (JsonSpec::Num { bits: a, .. }, JsonSpec::Num { bits: b, .. }) => f64_cmp(a, b),
            _ => None,
        },
        FieldType::Bool => match (l, r) {
            (JsonSpec::Bool(a), JsonSpec::Bool(b)) => Some(
                if a == b {
                    CmpOrder::Equal
                } else if !a {
                    CmpOrder::Less
                } else {
                    CmpOrder::Greater
                },
            ),
            _ => None,
        },
        FieldType::SemVer => match (l, r) {
            (JsonSpec::Str(a), JsonSpec::Str(b)) => spec_semver_cmp(a, b),
            _ => None,
        },
    }
}

/// Compare two values under a field type; the result is exactly
/// [`spec_compare_values`] of their models, and the error comes precisely
/// when that comparison fails.
pub fn compare_values(left: &JsonValue, right: &JsonValue, field_type: FieldType) -> (r: Result<
    CmpOrder,
    ExperimentError,
>)
    ensures
        match spec_compare_values(json_view(*left), json_view(*right), field_type) {
            Some(c) => r == Ok::<CmpOrder, ExperimentError>(c),
            None => r matches Err(e) && e matches ExperimentError::InvalidRule(_),
        },
{
    match field_type {
        FieldType::String => match (left, right) {
            (JsonValue::Str(a), JsonValue::Str(b)) => Ok(str_cmp(a.as_str(), b.as_str())),
            _ => Err(
                ExperimentError::InvalidRule(
                    String::from_str("String comparison requires string values"),
                ),
            ),
        },
        FieldType::Int => match (left, right) {
            (JsonValue::Num { int_val: Some(a), .. }, JsonValue::Num { int_val: Some(b), .. }) => {
                if *a < *b {
                    Ok(CmpOrder::Less)
                } else if *a > *b {
                    Ok(CmpOrder::Greater)
                } else {
                    Ok(CmpOrder::Equal)
                }
            },
            _ => Err(
                ExperimentError::InvalidRule(
                    String::from_str("Int comparison requires integer values"),
                ),
            ),
        },
        FieldType::Float => match (left, right) {
            (JsonValue::Num { bits: a, .. }, JsonValue::Num { bits: b, .. }) => {
                match f64_cmp_bits(*a, *b) {
                    Some(c) => Ok(c),
                    None => Err(
                        ExperimentError::InvalidRule(
                            String::from_str("Float comparison failed on NaN"),
                        ),
                    ),
                }
            },
            _ => Err(
                ExperimentError::InvalidRule(
                    String::from_str("Float comparison requires numeric values"),
                ),
            ),
        },
        FieldType::Bool => match (left, right) {
            (JsonValue::Bool(a), JsonValue::Bool(b)) => {
                if *a == *b {
                    Ok(CmpOrder::Equal)
                } else if !*a {
                    Ok(CmpOrder::Less)
                } else {
                    Ok(CmpOrder::Greater)
                }
            },
            _ => Err(
                ExperimentError::InvalidRule(
                    String::from_str("Bool comparison requires boolean values"),
                ),
            ),
        },
        FieldType::SemVer => match (left, right) {
            (JsonValue::Str(a), JsonValue::Str(b)) => compare_semver(a.as_str(), b.as_str()),
            _ => Err(
                ExperimentError::InvalidRule(
                    String::from_str("SemVer comparison requires string values"),
                ),
            ),
        },
    }
}

/// Membership test: whether `fv` equals any of `values[i..]` under `t`.
/// `None` is a failed comparison before a match was found.
pub open spec fn spec_in_list(fv: JsonSpec, values: Seq<JsonSpec>, i: int, t: FieldType) -> Option<
    bool,
>
    decreases values.len() - i,
{
    if i < 0 || i >= values.len() {
        Some(false)
    } else {
        match spec_compare_values(fv, values[i], t) {
            None => None,
            Some(CmpOrder::Equal) => Some(true),
            Some(_) => spec_in_list(fv, values, i + 1, t),
        }
    }
}

/// What one `Field` leaf evaluates to: the comparison of the context
/// value against the rule's values under the operator. `None` is an
/// error: a wrong number of values, a failed comparison, a non-string
/// under `Like`, or a boolean token on a leaf.
pub open spec fn spec_eval_field_op(
    fv: JsonSpec,
    op: Op,
    values: Seq<JsonSpec>,
    t: FieldType,
) -> Option<bool> {
    match op {
        Op::Eq => if values.len() != 1 {
            None
        } else {
            match spec_compare_values(fv, values[0], t) {
                Some(c) => Some(c == CmpOrder::Equal),
                None => None,
            }
        },
        Op::Neq => if values.len() != 1 {
            None
        } else {
            match spec_compare_values(fv, values[0], t) {
                Some(c) => Some(c != CmpOrder::Equal),
                None => None,
            }
        },
        Op::Gt => if values.len() != 1 {
            None
        } else {
            match spec_compare_values(fv, values[0], t) {
                Some(c) => Some(c == CmpOrder::Greater),
                None => None,
            }
        },
        Op::Gte => if values.len() != 1 {
            None
        } else {
            match spec_compare_values(fv, values[0], t) {
                Some(c) => Some(c == CmpOrder::Greater || c == CmpOrder::Equal),
                None => None,
            }
        },
        Op::Lt => if values.len() != 1 {
            None
        } else {
            match spec_compare_values(fv, values[0], t) {
                Some(c) => Some(c == CmpOrder::Less),
                None => None,
            }
        },
        Op::Lte => if values.len() != 1 {
            None
        } else {
            match spec_compare_values(fv, values[0], t) {
                Some(c) => Some(c == CmpOrder::Less || c == CmpOrder::Equal),
                None => None,
            }
        },
        Op::In => spec_in_list(fv, values, 0, t),
        Op::NotIn => match spec_in_list(fv, values, 0, t) {
            Some(b) => Some(!b),
            None => None,
        },
        Op::Like => if values.len() != 1 {
            None
        } else {
            match (fv, values[0]) {
                (JsonSpec::Str(a), JsonSpec::Str(p)) => Some(spec_pattern_match(a, p)),
                _ => None,
            }
        },
        Op::NotLike => if values.len() != 1 {
            None
        } else {
            match (fv, values[0]) {
                (JsonSpec::Str(a), JsonSpec::Str(p)) => Some(!spec_pattern_match(a, p)),
                _ => None,
            }
        },
        _ => None,
    }
}

/// Evaluate one field operation; the result is exactly
/// [`spec_eval_field_op`], with an error precisely when it is `None`.
#[verifier::loop_isolation(false)]
pub fn evaluate_field_op(
    field_value: &JsonValue,
    op: &Op,
    values: &Vec<JsonValue>,
    field_type: FieldType,
) -> (r: Result<bool, ExperimentError>)
    ensures
        match spec_eval_field_op(json_view(*field_value), *op, arr_view(values@), field_type) {
            Some(b) => r == Ok::<bool, ExperimentError>(b),
            None => r matches Err(e) && e matches ExperimentError::InvalidRule(_),
        },
{
    let ghost fv = json_view(*field_value);
    let ghost vv = arr_view(values@);
    match op {
        Op::In | Op::NotIn => {
            let neg = match op {
                Op::NotIn => true,
                _ => false,
            };
            let mut i: usize = 0;
            while i < values.len()
                invariant
                    i <= values@.len(),
                    spec_in_list(fv, vv, 0, field_type) == spec_in_list(
                        fv,
                        vv,
                        i as int,
                        field_type,
                    ),
                decreases values@.len() - i,
            {
                match compare_values(field_value, &values[i], field_type) {
                    Err(e) => {
                        return Err(e);
                    },
                    Ok(CmpOrder::Equal) => {
                        return Ok(!neg);
                    },
                    Ok(_) => {},
                }
                i = i + 1;
            }
            Ok(neg)
        },
        Op::Like | Op::NotLike => {
            let neg = match op {
                Op::NotLike => true,
                _ => false,
            };
            if values.len() != 1 {
                return Err(
                    ExperimentError::InvalidRule(
                        String::from_str("Like operator requires exactly one value"),
                    ),
                );
            }
            match (field_value, &values[0]) {
                (JsonValue::Str(a), JsonValue::Str(p)) => {
                    let m = simple_pattern_match(a.as_str(), p.as_str());
                    if neg {
                        Ok(!m)
                    } else {
                        Ok(m)
                    }
                },
                _ => Err(
                    ExperimentError::InvalidRule(
                        String::from_str("Like operator requires string values"),
                    ),
                ),
            }
        },
        Op::And | Op::Or | Op::Not => Err(
            ExperimentError::InvalidRule(
                String::from_str("Boolean operator cannot be used in field comparison"),
            ),
        ),
        _ => {
            if values.len() != 1 {
                return Err(
                    ExperimentError::InvalidRule(
                        String::from_str("Comparison operator requires exactly one value"),
                    ),
                );
            }
            let c = match compare_values(field_value, &values[0], field_type) {
                Ok(c) => c,
                Err(e) => {
                    return Err(e);
                },
            };
            match op {
                Op::Eq => Ok(match c {
                    CmpOrder::Equal => true,
                    _ => false,
                }),
                Op::Neq => Ok(match c {
                    CmpOrder::Equal => false,
                    _ => true,
                }),
                Op::Gt => Ok(match c {
                    CmpOrder::Greater => true,
                    _ => false,
                }),
                Op::Gte => Ok(match c {
                    CmpOrder::Less => false,
                    _ => true,
                }),
                Op::Lt => Ok(match c {
                    CmpOrder::Less => true,
                    _ => false,
                }),
                _ => Ok(match c {
                    CmpOrder::Greater => false,
                    _ => true,
                }),
            }
        },
    }
}

/// The children of a boolean combinator node, and nothing for leaves.
pub open spec fn node_children(n: Node) -> Seq<Node> {
    match n {
        Node::And { children } => children@,
        Node::Or { children } => children@,
        _ => Seq::empty(),
    }
}

/// What a rule node evaluates to over a context and a field-type map.
/// `None` is an error: a field missing from the context or the type map,
/// or a failed leaf evaluation. `And` and `Or` stop at the first error or
/// at the first decisive child.
pub open spec fn spec_eval_node(
    n: Node,
    ctx: Seq<(Seq<char>, JsonSpec)>,
    ft: Seq<(Seq<char>, FieldType)>,
) -> Option<bool>
    decreases n, node_children(n).len() + 1,
{
    match n {
        Node::And { children } => spec_eval_list(n, 0, false, ctx, ft),
        Node::Or { children } => spec_eval_list(n, 0, true, ctx, ft),
        Node::Not { child } => match spec_eval_node(*child, ctx, ft) {
            Some(b) => Some(!b),
            None => None,
        },
        Node::Field { field, op, values } => match obj_get(ctx, field@) {
            None => None,
            Some(fv) => match ft_get(ft, field@) {
                None => None,
                Some(t) => spec_eval_field_op(fv, op, arr_view(values@), t),
            },
        },
    }
}

/// Evaluate the children of `n` from position `i` on; `stop` is the value
/// that short-circuits (`true` for `Or`, `false` for `And`) and its
/// negation is the value of an exhausted list.
pub open spec fn spec_eval_list(
    n: Node,
    i: int,
    stop: bool,
    ctx: Seq<(Seq<char>, JsonSpec)>,
    ft: Seq<(Seq<char>, FieldType)>,
) -> Option<bool>
    decreases n, node_children(n).len() - i,
{
    let cs = node_children(n);
    if i < 0 || i >= cs.len() {
        Some(!stop)
    } else {
        match spec_eval_node(cs[i], ctx, ft) {
            None => None,
            Some(b) => if b == stop {
                Some(stop)
            } else {
                spec_eval_list(n, i + 1, stop, ctx, ft)
            },
        }
    }
}

/// Whether one rule value has the shape its field type demands.
pub open spec fn spec_value_type_ok(v: JsonSpec, t: FieldType) -> bool {
    match t {
        FieldType::String => v is Str,
        FieldType::Int => v matches JsonSpec::Num { int_val: Some(_), .. },
        FieldType::Float => v is Num,
        FieldType::Bool => v is Bool,
        FieldType::SemVer => v matches JsonSpec::Str(s) && first_index_of_char(s, '.') >= 0,
    }
}

/// Whether a rule tree is well-formed against a field-type map: no empty
/// `And`/`Or`, every leaf field declared, no boolean token on a leaf, at
/// least one value per leaf, and every value of the declared shape.
pub open spec fn spec_node_valid(n: Node, ft: Seq<(Seq<char>, FieldType)>) -> bool
    decreases n, node_children(n).len() + 1,
{
    match n {
        Node::And { children } => children@.len() > 0 && spec_list_valid(n, 0, ft),
        Node::Or { children } => children@.len() > 0 && spec_list_valid(n, 0, ft),
        Node::Not { child } => spec_node_valid(*child, ft),
        Node::Field { field, op, values } => {
            &&& ft_get(ft, field@) is Some
            &&& values@.len() > 0
            &&& !(op == Op::And || op == Op::Or || op == Op::Not)
            &&& forall|j: int|
                0 <= j < values@.len() ==> spec_value_type_ok(
                    #[trigger] arr_view(values@)[j],
                    ft_get(ft, field@).unwrap(),
                )
        },
    }
}

/// Whether every child of `n` from position `i` on is well-formed.
pub open spec fn spec_list_valid(n: Node, i: int, ft: Seq<(Seq<char>, FieldType)>) -> bool
    decreases n, node_children(n).len() - i,
{
    let cs = node_children(n);
    if i < 0 || i >= cs.len() {
        true
    } else {
        spec_node_valid(cs[i], ft) && spec_list_valid(n, i + 1, ft)
    }
}

/// Whether one rule value has the shape its field type demands.
pub fn value_type_ok(v: &JsonValue, t: FieldType) -> (r: bool)
    ensures
        r == spec_value_type_ok(json_view(*v), t),
{
    match t {
        FieldType::String => match v {
            JsonValue::Str(_) => true,
            _ => false,
        },
        FieldType::Int => match v {
            JsonValue::Num { int_val: Some(_), .. } => true,
            _ => false,
        },
        FieldType::Float => match v {
            JsonValue::Num { .. } => true,
            _ => false,
        },
        FieldType::Bool => match v {
            JsonValue::Bool(_) => true,
            _ => false,
        },
        FieldType::SemVer => match v {
            JsonValue::Str(s) => match find_char(s.as_str(), '.') {
                Some(_) => true,
                None => false,
            },
            _ => false,
        },
    }
}

impl Node {
    /// Check this rule tree against a field-type map. `Ok` exactly when
    /// the tree is well-formed in the sense of [`spec_node_valid`].
    #[verifier::loop_isolation(false)]
    pub fn validate(&self, field_types: &Vec<(String, FieldType)>) -> (r: Result<
        (),
        ExperimentError,
    >)
        ensures
            r is Ok <==> spec_node_valid(*self, ft_view(field_types@)),
            r matches Err(e) ==> e matches ExperimentError::InvalidRule(_),
        decreases self,
    {
        let ghost ftv = ft_view(field_types@);
        match self {
            Node::And { children } | Node::Or { children } => {
                proof {
                    assert(*self == (Node::And { children: *children }) || *self == (Node::Or {
                        children: *children,
                    }));
                }
                if children.len() == 0 {
                    return Err(
                        ExperimentError::InvalidRule(
                            String::from_str("Boolean node must have at least one child"),
                        ),
                    );
                }
                let mut i: usize = 0;
                while i < children.len()
                    invariant
                        i <= children@.len(),
                        spec_list_valid(*self, 0, ftv) == spec_list_valid(*self, i as int, ftv),
                    decreases children@.len() - i,
                {
                    proof {
                        assert(decreases_to!(*children => children@));
                        assert(decreases_to!(children@ => children@[i as int]));
                        assert(decreases_to!(*self => children@[i as int]));
                    }
                    match children[i].validate(field_types) {
                        Ok(()) => {},
                        Err(e) => {
                            return Err(e);
                        },
                    }
                    i = i + 1;
                }
                Ok(())
            },
            Node::Not { child } => {
                proof {
                    assert(*self == (Node::Not { child: *child }));
                    assert(decreases_to!(*self => *child));
                }
                (&**child).validate(field_types)
            },
            Node::Field { field, op, values } => {
                proof {
                    assert(*self == (Node::Field {
                        field: *field,
                        op: *op,
                        values: *values,
                    }));
                }
                let ftype = match ft_find(field_types, field.as_str()) {
                    Some(t) => t,
                    None => {
                        return Err(
                            ExperimentError::InvalidRule(
                                String::from_str("Field not found in field type map"),
                            ),
                        );
                    },
                };
                if values.len() == 0 {
                    return Err(
                        ExperimentError::InvalidRule(
                            String::from_str("Field operator requires at least one value"),
                        ),
                    );
                }
                let is_bool_op = match op {
                    Op::And | Op::Or | Op::Not => true,
                    _ => false,
                };
                if is_bool_op {
                    return Err(
                        ExperimentError::InvalidRule(
                            String::from_str("Boolean operator cannot be used in Field node"),
                        ),
                    );
                }
                let mut i: usize = 0;
                while i < values.len()
                    invariant
                        i <= values@.len(),
                        forall|j: int|
                            0 <= j < i ==> spec_value_type_ok(
                                #[trigger] arr_view(values@)[j],
                                ftype,
                            ),
                    decreases values@.len() - i,
                {
                    if !value_type_ok(&values[i], ftype) {
                        proof {
                            assert(arr_view(values@)[i as int] == json_view(values@[i as int]));
                        }
                        return Err(
                            ExperimentError::InvalidRule(
                                String::from_str("Value does not match field type"),
                            ),
                        );
                    }
                    proof {
                        assert(arr_view(values@)[i as int] == json_view(values@[i as int]));
                    }
                    i = i + 1;
                }
                Ok(())
            },
        }
    }

    /// Evaluate this rule tree over a request context. The result is
    /// exactly [`spec_eval_node`] of the models, with an error precisely
    /// when that evaluation fails.
    #[verifier::loop_isolation(false)]
    pub fn evaluate(
        &self,
        ctx: &Vec<(String, JsonValue)>,
        field_types: &Vec<(String, FieldType)>,
    ) -> (r: Result<bool, ExperimentError>)
        ensures
            match spec_eval_node(*self, entries_view(ctx@), ft_view(field_types@)) {
                Some(b) => r == Ok::<bool, ExperimentError>(b),
                None => r matches Err(e) && e matches ExperimentError::InvalidRule(_),
            },
        decreases self,
    {
        let ghost cv = entries_view(ctx@);
        let ghost ftv = ft_view(field_types@);
        match self {
            Node::And { children } | Node::Or { children } => {
                let stop = match self {
                    Node::Or { .. } => true,
                    _ => false,
                };
                proof {
                    assert(*self == (Node::And { children: *children }) || *self == (Node::Or {
                        children: *children,
                    }));
                }
                let mut i: usize = 0;
                while i < children.len()
                    invariant
                        i <= children@.len(),
                        spec_eval_list(*self, 0, stop, cv, ftv) == spec_eval_list(
                            *self,
                            i as int,
                            stop,
                            cv,
                            ftv,
                        ),
                    decreases children@.len() - i,
                {
                    proof {
                        assert(decreases_to!(*children => children@));
                        assert(decreases_to!(children@ => children@[i as int]));
                        assert(decreases_to!(*self => children@[i as int]));
                    }
                    match children[i].evaluate(ctx, field_types) {
                        Err(e) => {
                            return Err(e);
                        },
                        Ok(b) => {
                            if b == stop {
                                return Ok(stop);
                            }
                        },
                    }
                    i = i + 1;
                }
                Ok(!stop)
            },
            Node::Not { child } => {
                proof {
                    assert(*self == (Node::Not { child: *child }));
                    assert(decreases_to!(*self => *child));
                }
                match (&**child).evaluate(ctx, field_types) {
                    Ok(b) => Ok(!b),
                    Err(e) => Err(e),
                }
            },
            Node::Field { field, op, values } => {
                proof {
                    assert(*self == (Node::Field {
                        field: *field,
                        op: *op,
                        values: *values,
                    }));
                }
                let fv = match obj_get_value(ctx, field.as_str()) {
                    Some(v) => v,
                    None => {
                        return Err(
                            ExperimentError::InvalidRule(
                                String::from_str("Field not found in context"),
                            ),
                        );
                    },
                };
                let ftype = match ft_find(field_types, field.as_str()) {
                    Some(t) => t,
                    None => {
                        return Err(
                            ExperimentError::InvalidRule(
                                String::from_str("Field not found in field type map"),
                            ),
                        );
                    },
                };
                evaluate_field_op(fv, op, values, ftype)
            },
        }
    }
}

} // verus!
