//! Layers: independent randomization strata. A layer maps sorted,
//! non-overlapping, half-open bucket ranges to variant ids; buckets not
//! covered by any range carry no assignment in that layer.

use vstd::prelude::*;
use vstd::string::StrSliceExecFns;
use vstd::string::StringExecFns;
use crate::error::ExperimentError;
use crate::strings::{chars_lt, str_eq, str_lt, lemma_chars_lt_total, lemma_chars_lt_trans};
use crate::assoc::{key_index_of, has_key, key_get, kview, key_find, lemma_key_index_of};
use crate::rule::{is_digit, digits_val};
use crate::BUCKET_SIZE;

verus! {

broadcast use vstd::seq_lib::group_to_multiset_ensures;

/// One slice of hash space: buckets `start <= b < end` map to variant
/// `vid`.
#[derive(Debug, Clone, Copy, PartialEq, Eq, Structural)]
pub struct BucketRange {
    pub start: u32,
    pub end: u32,
    pub vid: i64,
}

/// A range is half-open, nonempty and within the bucket space.
pub open spec fn range_ok(r: BucketRange) -> bool {
    r.start < r.end && r.end <= BUCKET_SIZE
}

/// Every range is well-formed on its own.
pub open spec fn bounds_ok(rs: Seq<BucketRange>) -> bool {
    forall|i: int| 0 <= i < rs.len() ==> range_ok(#[trigger] rs[i])
}

/// No two ranges overlap, in either order.
pub open spec fn pairwise_disjoint(rs: Seq<BucketRange>) -> bool {
    forall|i: int, j: int|
        0 <= i < j < rs.len() ==> (#[trigger] rs[i]).end <= (#[trigger] rs[j]).start || rs[j].end
            <= rs[i].start
}

/// The order the range list is kept in: by start, then by end.
pub open spec fn rleq(a: BucketRange, b: BucketRange) -> bool {
    a.start < b.start || (a.start == b.start && a.end <= b.end)
}

/// The range list is sorted by `rleq`.
pub open spec fn sorted_ranges(rs: Seq<BucketRange>) -> bool {
    forall|i: int, j: int| 0 <= i < j < rs.len() ==> rleq(#[trigger] rs[i], #[trigger] rs[j])
}

/// The full well-formedness of a layer's range list: each range valid,
/// sorted by start, and each range ending before the next begins.
pub open spec fn ranges_wf(rs: Seq<BucketRange>) -> bool {
    &&& bounds_ok(rs)
    &&& forall|i: int| 0 <= i < rs.len() - 1 ==> (#[trigger] rs[i]).end <= rs[i + 1].start
}

/// Whether bucket `b` falls inside range `r`.
pub open spec fn in_range(r: BucketRange, b: u32) -> bool {
    r.start <= b < r.end
}

/// The variant id of the first range containing `b`, if any.
pub open spec fn vid_at(rs: Seq<BucketRange>, b: u32) -> Option<i64>
    decreases rs.len(),
{
    if rs.len() == 0 {
        None
    } else if in_range(rs[0], b) {
        Some(rs[0].vid)
    } else {
        vid_at(rs.drop_first(), b)
    }
}

/// `vid_at` answers exactly for the ranges that contain the bucket.
pub proof fn lemma_vid_at(rs: Seq<BucketRange>, b: u32)
    ensures
        vid_at(rs, b) is None ==> forall|i: int| 0 <= i < rs.len() ==> !in_range(#[trigger] rs[i], b),
        vid_at(rs, b) matches Some(v) ==> exists|i: int|
            0 <= i < rs.len() && in_range(#[trigger] rs[i], b) && rs[i].vid == v,
    decreases rs.len(),
{
    if rs.len() > 0 && !in_range(rs[0], b) {
        lemma_vid_at(rs.drop_first(), b);
        if vid_at(rs, b) is None {
            assert forall|i: int| 0 <= i < rs.len() implies !in_range(#[trigger] rs[i], b) by {
                if i > 0 {
                    assert(rs.drop_first()[i - 1] == rs[i]);
                }
            }
        } else {
            let v = vid_at(rs, b).unwrap();
            let i = choose|i: int|
                0 <= i < rs.drop_first().len() && in_range(#[trigger] rs.drop_first()[i], b)
                    && rs.drop_first()[i].vid == v;
            assert(rs[i + 1] == rs.drop_first()[i]);
        }
    }
}

/// In a well-formed range list, ranges keep their order at a distance.
pub proof fn lemma_ranges_ordered(rs: Seq<BucketRange>, i: int, j: int)
    requires
        ranges_wf(rs),
        0 <= i < j < rs.len(),
    ensures
        rs[i].end <= rs[j].start,
        rs[i].start < rs[j].start,
    decreases j - i,
{
    if j > i + 1 {
        lemma_ranges_ordered(rs, i, j - 1);
    }
}

/// In a well-formed list, the range containing a bucket is unique, and
/// `vid_at` finds it.
pub proof fn lemma_vid_at_found(rs: Seq<BucketRange>, b: u32, m: int)
    requires
        ranges_wf(rs),
        0 <= m < rs.len(),
        in_range(rs[m], b),
    ensures
        vid_at(rs, b) == Some(rs[m].vid),
    decreases m,
{
    if m == 0 {
    } else {
        assert(!in_range(rs[0], b)) by {
            lemma_ranges_ordered(rs, 0, m);
        }
        assert(rs.drop_first()[m - 1] == rs[m]);
        assert(ranges_wf(rs.drop_first())) by {
            assert forall|i: int| 0 <= i < rs.drop_first().len() - 1 implies (#[trigger] rs
                .drop_first()[i]).end <= rs.drop_first()[i + 1].start by {
                assert(rs.drop_first()[i] == rs[i + 1]);
                assert(rs.drop_first()[i + 1] == rs[i + 2]);
            }
            assert forall|i: int| 0 <= i < rs.drop_first().len() implies range_ok(
                #[trigger] rs.drop_first()[i],
            ) by {
                assert(rs.drop_first()[i] == rs[i + 1]);
            }
        }
        lemma_vid_at_found(rs.drop_first(), b, m - 1);
    }
}

/// Every bucket a well-formed range list covers lies below `BUCKET_SIZE`:
/// the union of the ranges is contained in the bucket space.
pub proof fn lemma_ranges_within_bucket_space(rs: Seq<BucketRange>, b: u32)
    requires
        ranges_wf(rs),
        vid_at(rs, b) is Some,
    ensures
        b < BUCKET_SIZE,
{
    lemma_vid_at(rs, b);
}

/// Inserting an element into a sequence, described entrywise.
proof fn lemma_seq_insert_facts(s: Seq<BucketRange>, p: int, x: BucketRange)
    requires
        0 <= p <= s.len(),
    ensures
        s.insert(p, x).len() == s.len() + 1,
        s.insert(p, x)[p] == x,
        forall|k: int| 0 <= k < p ==> #[trigger] s.insert(p, x)[k] == s[k],
        forall|k: int| p < k < s.len() + 1 ==> #[trigger] s.insert(p, x)[k] == s[k - 1],
{
}

/// Inserting an element adds exactly it to the sequence's multiset.
proof fn lemma_insert_to_multiset(s: Seq<BucketRange>, p: int, x: BucketRange)
    requires
        0 <= p <= s.len(),
    ensures
        s.insert(p, x).to_multiset() == s.to_multiset().insert(x),
{
    let w = s.insert(p, x);
    assert(w.remove(p) =~= s);
    assert(w.remove(p).to_multiset() =~= w.to_multiset().remove(w[p]));
    assert(w[p] == x);
    assert(w.to_multiset().count(x) > 0) by {
        assert(w.contains(x));
    }
    assert(w.to_multiset() =~= s.to_multiset().insert(x)) by {
        assert(forall|y: BucketRange|
            #![all_triggers]
            w.to_multiset().count(y) == s.to_multiset().insert(x).count(y)) by {
            assert(forall|y: BucketRange|
                #![all_triggers]
                s.to_multiset().count(y) == w.to_multiset().remove(x).count(y));
        }
    }
}

/// Insert a range into a list kept sorted by `rleq`.
#[verifier::loop_isolation(false)]
fn insert_range_sorted(out: &mut Vec<BucketRange>, x: BucketRange)
    requires
        sorted_ranges(old(out)@),
    ensures
        sorted_ranges(final(out)@),
        final(out)@.to_multiset() == old(out)@.to_multiset().insert(x),
        final(out)@.len() == old(out)@.len() + 1,
        forall|y: BucketRange| #[trigger]
            final(out)@.contains(y) ==> old(out)@.contains(y) || y == x,
        forall|y: BucketRange| #[trigger] old(out)@.contains(y) ==> final(out)@.contains(y),
{
    let ghost s0 = out@;
    let mut p: usize = 0;
    while p < out.len() && (out[p].start < x.start || (out[p].start == x.start && out[p].end
        <= x.end))
        invariant
            p <= out@.len(),
            forall|k: int| 0 <= k < p ==> rleq(#[trigger] out@[k], x),
        decreases out@.len() - p,
    {
        p = p + 1;
    }
    proof {
        if p < out@.len() {
            assert(!rleq(out@[p as int], x));
            assert(rleq(x, out@[p as int]));
        }
    }
    out.insert(p, x);
    proof {
        lemma_seq_insert_facts(s0, p as int, x);
        lemma_insert_to_multiset(s0, p as int, x);
        assert forall|i: int, j: int| 0 <= i < j < out@.len() implies rleq(
            #[trigger] out@[i],
            #[trigger] out@[j],
        ) by {
            if j < p {
            } else if i < p && j == p {
            } else if i < p && j > p {
                assert(out@[j] == s0[j - 1]);
                if j - 1 == p {
                } else {
                    if j - 1 < s0.len() && i < j - 1 {
                    }
                }
            } else if i == p {
                assert(out@[j] == s0[j - 1]);
                assert(rleq(x, s0[p as int]));
                if j - 1 > p {
                    assert(rleq(s0[p as int], s0[j - 1]));
                }
            } else {
                assert(out@[i] == s0[i - 1]);
                assert(out@[j] == s0[j - 1]);
            }
        }
        assert forall|y: BucketRange| #[trigger] out@.contains(y) implies s0.contains(y) || y
            == x by {
            assert(out@.to_multiset().count(y) > 0);
            if y != x {
                assert(s0.to_multiset().insert(x).count(y) == s0.to_multiset().count(y));
            }
        }
        assert forall|y: BucketRange| #[trigger] s0.contains(y) implies out@.contains(y) by {
            assert(s0.to_multiset().count(y) > 0);
            assert(out@.to_multiset().count(y) >= s0.to_multiset().count(y));
        }
    }
}

/// Check and order a layer's ranges: every range must be half-open and
/// within the bucket space, and no two ranges may overlap. Success happens
/// exactly when the input ranges are in bounds and pairwise disjoint; the
/// list is then sorted by start and satisfies [`ranges_wf`], and it always
/// keeps exactly the ranges it was given. Each way of failing carries its
/// own description: a range with `start >= end`, a range ending past the
/// bucket space, or two overlapping ranges.
#[verifier::loop_isolation(false)]
#[verifier::rlimit(100)]
pub fn validate_and_sort_ranges(ranges: &mut Vec<BucketRange>) -> (r: Result<(), ExperimentError>)
    ensures
        r is Ok <==> bounds_ok(old(ranges)@) && pairwise_disjoint(old(ranges)@),
        r is Ok ==> ranges_wf(final(ranges)@) && final(ranges)@.to_multiset() == old(
            ranges,
        )@.to_multiset(),
        r matches Err(e) ==> e matches ExperimentError::InvalidParameter(_),
        final(ranges)@.to_multiset() == old(ranges)@.to_multiset(),
        (exists|i: int|
            0 <= i < old(ranges)@.len() && (#[trigger] old(ranges)@[i]).start >= old(
                ranges,
            )@[i].end) && (forall|i: int|
            0 <= i < old(ranges)@.len() ==> (#[trigger] old(ranges)@[i]).end <= BUCKET_SIZE) ==> (
        r matches Err(ExperimentError::InvalidParameter(m)) && m@
            == "Invalid range: start must be < end"@),
        (forall|i: int|
            0 <= i < old(ranges)@.len() ==> (#[trigger] old(ranges)@[i]).start < old(
                ranges,
            )@[i].end) && !bounds_ok(old(ranges)@) ==> (r matches Err(
            ExperimentError::InvalidParameter(m),
        ) && m@ == "Invalid range: end exceeds BUCKET_SIZE"@),
        bounds_ok(old(ranges)@) && !pairwise_disjoint(old(ranges)@) ==> (r matches Err(
            ExperimentError::InvalidParameter(m),
        ) && m@ == "Overlapping ranges"@),
{
    let ghost input = ranges@;
    let mut i: usize = 0;
    while i < ranges.len()
        invariant
            i <= input.len(),
            ranges@ == input,
            forall|k: int| 0 <= k < i ==> range_ok(#[trigger] input[k]),
        decreases input.len() - i,
    {
        if ranges[i].start >= ranges[i].end {
            return Err(
                ExperimentError::InvalidParameter(
                    String::from_str("Invalid range: start must be < end"),
                ),
            );
        }
        if ranges[i].end > BUCKET_SIZE {
            return Err(
                ExperimentError::InvalidParameter(
                    String::from_str("Invalid range: end exceeds BUCKET_SIZE"),
                ),
            );
        }
        i = i + 1;
    }
    proof {
        assert(bounds_ok(input));
    }
    let ghost disj = pairwise_disjoint(input);
    let mut out: Vec<BucketRange> = Vec::new();
    let mut j: usize = 0;
    proof {
        assert(input.take(0) =~= Seq::<BucketRange>::empty());
        assert(out@.to_multiset() =~= input.take(0).to_multiset());
    }
    while j < ranges.len()
        invariant
            j <= input.len(),
            ranges@ == input,
            bounds_ok(input),
            sorted_ranges(out@),
            out@.to_multiset() == input.take(j as int).to_multiset(),
            out@.len() == j,
            disj == pairwise_disjoint(input),
            forall|y: BucketRange| #[trigger] out@.contains(y) ==> input.take(j as int).contains(y),
            disj ==> pairwise_disjoint(out@),
        decreases input.len() - j,
    {
        let ghost before = out@;
        let x = ranges[j];
        insert_range_sorted(&mut out, x);
        proof {
            assert(input.take(j + 1).drop_last() =~= input.take(j as int));
            assert(input.take(j + 1) =~= input.take(j as int).push(x));
            assert(input.take(j as int).push(x).to_multiset() =~= input.take(
                j as int,
            ).to_multiset().insert(x));
            assert forall|y: BucketRange| #[trigger] out@.contains(y) implies input.take(
                j + 1,
            ).contains(y) by {
                if y == x {
                    assert(input.take(j + 1)[j as int] == x);
                } else {
                    assert(before.contains(y));
                    let k = choose|k: int|
                        0 <= k < j && #[trigger] input.take(j as int)[k] == y;
                    assert(input.take(j + 1)[k] == y);
                }
            }
            if disj {
                assert forall|a: int, b: int| 0 <= a < b < out@.len() implies (#[trigger] out@[a]).end
                    <= (#[trigger] out@[b]).start || out@[b].end <= out@[a].start by {
                    let ya = out@[a];
                    let yb = out@[b];
                    assert(out@.contains(ya));
                    assert(out@.contains(yb));
                    if ya == yb {
                        assert(range_ok(ya)) by {
                            let k = choose|k: int|
                                0 <= k < j + 1 && #[trigger] input.take(j + 1)[k] == ya;
                            assert(input[k] == ya);
                        }
                        assert(out@.to_multiset().count(ya) >= 2) by {
                            lemma_two_positions_count(out@, a, b, ya);
                        }
                        assert(input.take(j + 1).to_multiset().count(ya) >= 2);
                        lemma_count_two_indices(input.take(j + 1), ya);
                        let (k1, k2) = choose|k1: int, k2: int|
                            0 <= k1 < k2 < input.take(j + 1).len() && #[trigger] input.take(
                                j + 1,
                            )[k1] == ya && #[trigger] input.take(j + 1)[k2] == ya;
                        assert(input[k1] == ya && input[k2] == ya);
                        assert(input[k1].end <= input[k2].start || input[k2].end
                            <= input[k1].start);
                        assert(false);
                    } else {
                        let ka = choose|k: int|
                            0 <= k < j + 1 && #[trigger] input.take(j + 1)[k] == ya;
                        let kb = choose|k: int|
                            0 <= k < j + 1 && #[trigger] input.take(j + 1)[k] == yb;
                        assert(input[ka] == ya && input[kb] == yb);
                        assert(ka != kb);
                    }
                }
            }
        }
        j = j + 1;
    }
    proof {
        assert(input.take(j as int) =~= input);
        assert forall|k: int| 0 <= k < out@.len() implies range_ok(#[trigger] out@[k]) by {
            assert(out@.contains(out@[k]));
            let m = choose|m: int|
                0 <= m < input.len() && #[trigger] input.take(input.len() as int)[m] == out@[k];
            assert(input[m] == out@[k]);
        }
    }
    let mut w: usize = 0;
    while w + 1 < out.len()
        invariant
            out@.len() > 0 ==> w < out@.len(),
            out@.len() == 0 ==> w == 0,
            sorted_ranges(out@),
            forall|k: int| 0 <= k < w ==> (#[trigger] out@[k]).end <= out@[k + 1].start,
        decreases out@.len() - w,
    {
        if out[w + 1].start < out[w].end {
            proof {
                if disj {
                    assert(pairwise_disjoint(out@));
                    assert(rleq(out@[w as int], out@[w + 1]));
                    assert(range_ok(out@[w as int]) && range_ok(out@[w + 1]));
                    assert(false);
                }
            }
            return Err(
                ExperimentError::InvalidParameter(String::from_str("Overlapping ranges")),
            );
        }
        w = w + 1;
    }
    proof {
        assert(w < out@.len() || out@.len() == 0);
        assert(ranges_wf(out@));
        lemma_wf_perm_disjoint(input, out@);
    }
    let mut res: Vec<BucketRange> = out;
    core::mem::swap(ranges, &mut res);
    Ok(())
}

/// A list whose well-formed rearrangement exists is itself pairwise
/// disjoint: overlap is a property of the ranges alone, not their order.
proof fn lemma_wf_perm_disjoint(input: Seq<BucketRange>, out: Seq<BucketRange>)
    requires
        bounds_ok(input),
        ranges_wf(out),
        out.to_multiset() == input.to_multiset(),
    ensures
        pairwise_disjoint(input),
{
    broadcast use vstd::seq_lib::group_to_multiset_ensures;

    assert forall|i: int, j: int| 0 <= i < j < input.len() implies (#[trigger] input[i]).end <= (
    #[trigger] input[j]).start || input[j].end <= input[i].start by {
        if input[i] == input[j] {
            lemma_two_positions_count(input, i, j, input[i]);
            assert(out.to_multiset().count(input[i]) >= 2);
            lemma_count_two_indices(out, input[i]);
            let (p, q) = choose|p: int, q: int|
                0 <= p < q < out.len() && #[trigger] out[p] == input[i] && #[trigger] out[q]
                    == input[i];
            lemma_ranges_ordered(out, p, q);
            assert(range_ok(input[i]));
            assert(false);
        } else {
            assert(input.contains(input[i]));
            assert(input.contains(input[j]));
            assert(out.to_multiset().count(input[i]) > 0);
            assert(out.to_multiset().count(input[j]) > 0);
            assert(out.contains(input[i]));
            assert(out.contains(input[j]));
            let p = choose|p: int| 0 <= p < out.len() && out[p] == input[i];
            let q = choose|q: int| 0 <= q < out.len() && out[q] == input[j];
            assert(p != q);
            if p < q {
                lemma_ranges_ordered(out, p, q);
            } else {
                lemma_ranges_ordered(out, q, p);
            }
        }
    }
}

/// Two distinct positions holding the same value push its count to two.
proof fn lemma_two_positions_count(s: Seq<BucketRange>, a: int, b: int, y: BucketRange)
    requires
        0 <= a < b < s.len(),
        s[a] == y,
        s[b] == y,
    ensures
        s.to_multiset().count(y) >= 2,
{
    let s2 = s.remove(a);
    assert(s2.to_multiset() =~= s.to_multiset().remove(y));
    assert(s2[b - 1] == y);
    assert(s2.contains(y));
    assert(s2.to_multiset().count(y) > 0);
    assert(s.to_multiset().count(y) == s2.to_multiset().count(y) + 1);
}

/// A value counted at least twice sits at two distinct positions.
proof fn lemma_count_two_indices(s: Seq<BucketRange>, y: BucketRange)
    requires
        s.to_multiset().count(y) >= 2,
    ensures
        exists|k1: int, k2: int| 0 <= k1 < k2 < s.len() && #[trigger] s[k1] == y && #[trigger] s[k2]
            == y,
{
    assert(s.contains(y));
    let k1 = choose|k: int| 0 <= k < s.len() && s[k] == y;
    let s2 = s.remove(k1);
    assert(s2.to_multiset() =~= s.to_multiset().remove(y));
    assert(s2.to_multiset().count(y) >= 1);
    assert(s2.contains(y));
    let k2 = choose|k: int| 0 <= k < s2.len() && s2[k] == y;
    if k2 < k1 {
        assert(s[k2] == s2[k2]);
        assert(s[k2] == y && s[k1] == y);
    } else {
        assert(s[k2 + 1] == s2[k2]);
        assert(s[k1] == y && s[k2 + 1] == y);
    }
}

/// The characters that count as whitespace when service names are
/// normalized: the Unicode White_Space set.
pub open spec fn is_space(c: char) -> bool {
    c == '\u{9}' || c == '\u{a}' || c == '\u{b}' || c == '\u{c}' || c == '\u{d}' || c == ' '
        || c == '\u{85}' || c == '\u{a0}' || c == '\u{1680}' || c == '\u{2000}' || c == '\u{2001}'
        || c == '\u{2002}' || c == '\u{2003}' || c == '\u{2004}' || c == '\u{2005}'
        || c == '\u{2006}' || c == '\u{2007}' || c == '\u{2008}' || c == '\u{2009}'
        || c == '\u{200a}' || c == '\u{2028}' || c == '\u{2029}' || c == '\u{202f}'
        || c == '\u{205f}' || c == '\u{3000}'
}

/// Whether `c` counts as whitespace.
pub fn is_space_char(c: char) -> (r: bool)
    ensures
        r == is_space(c),
{
    c == '\u{9}' || c == '\u{a}' || c == '\u{b}' || c == '\u{c}' || c == '\u{d}' || c == ' '
        || c == '\u{85}' || c == '\u{a0}' || c == '\u{1680}' || c == '\u{2000}' || c == '\u{2001}'
        || c == '\u{2002}' || c == '\u{2003}' || c == '\u{2004}' || c == '\u{2005}'
        || c == '\u{2006}' || c == '\u{2007}' || c == '\u{2008}' || c == '\u{2009}'
        || c == '\u{200a}' || c == '\u{2028}' || c == '\u{2029}' || c == '\u{202f}'
        || c == '\u{205f}' || c == '\u{3000}'
}

/// Index of the first non-whitespace character, or `-1`.
pub open spec fn first_non_space(s: Seq<char>) -> int
    decreases s.len(),
{
    if s.len() == 0 {
        -1
    } else if !is_space(s[0]) {
        0
    } else {
        let r = first_non_space(s.drop_first());
        if r < 0 {
            -1
        } else {
            r + 1
        }
    }
}

/// Index of the last non-whitespace character, or `-1`.
pub open spec fn last_non_space(s: Seq<char>) -> int
    decreases s.len(),
{
    if s.len() == 0 {
        -1
    } else if !is_space(s.last()) {
        s.len() - 1
    } else {
        last_non_space(s.drop_last())
    }
}

/// A string with surrounding whitespace removed.
pub open spec fn spec_trim(s: Seq<char>) -> Seq<char> {
    if first_non_space(s) < 0 {
        Seq::empty()
    } else {
        s.subrange(first_non_space(s), last_non_space(s) + 1)
    }
}

/// If `m` is the first non-whitespace position, `first_non_space` finds it.
proof fn lemma_first_non_space_is(s: Seq<char>, m: int)
    requires
        0 <= m < s.len(),
        !is_space(s[m]),
        forall|j: int| 0 <= j < m ==> is_space(s[j]),
    ensures
        first_non_space(s) == m,
    decreases s.len(),
{
    if m > 0 {
        assert forall|j: int| 0 <= j < m - 1 implies is_space(s.drop_first()[j]) by {
            assert(s.drop_first()[j] == s[j + 1]);
        }
        assert(s.drop_first()[m - 1] == s[m]);
        lemma_first_non_space_is(s.drop_first(), m - 1);
    }
}

/// If every character is whitespace, there is no first non-whitespace one.
proof fn lemma_first_non_space_none(s: Seq<char>)
    requires
        forall|j: int| 0 <= j < s.len() ==> is_space(s[j]),
    ensures
        first_non_space(s) == -1,
    decreases s.len(),
{
    if s.len() > 0 {
        assert forall|j: int| 0 <= j < s.drop_first().len() implies is_space(
            s.drop_first()[j],
        ) by {
            assert(s.drop_first()[j] == s[j + 1]);
        }
        lemma_first_non_space_none(s.drop_first());
    }
}

/// If `m` is the last non-whitespace position, `last_non_space` finds it.
proof fn lemma_last_non_space_is(s: Seq<char>, m: int)
    requires
        0 <= m < s.len(),
        !is_space(s[m]),
        forall|j: int| m < j < s.len() ==> is_space(s[j]),
    ensures
        last_non_space(s) == m,
    decreases s.len(),
{
    if m < s.len() - 1 {
        assert(is_space(s.last()));
        assert(s.drop_last()[m] == s[m]);
        assert forall|j: int| m < j < s.drop_last().len() implies is_space(
            s.drop_last()[j],
        ) by {
            assert(s.drop_last()[j] == s[j]);
        }
        lemma_last_non_space_is(s.drop_last(), m);
    }
}

/// Remove surrounding whitespace.
#[verifier::loop_isolation(false)]
pub fn trim_str(s: &str) -> (r: String)
    ensures
        r@ == spec_trim(s@),
{
    let n = s.unicode_len();
    let mut a: usize = 0;
    while a < n && is_space_char(s.get_char(a))
        invariant
            a <= n,
            n == s@.len(),
            forall|j: int| 0 <= j < a ==> is_space(s@[j]),
        decreases n - a,
    {
        a = a + 1;
    }
    if a == n {
        proof {
            lemma_first_non_space_none(s@);
        }
        return String::new();
    }
    proof {
        lemma_first_non_space_is(s@, a as int);
    }
    let mut b: usize = n - 1;
    while b > a && is_space_char(s.get_char(b))
        invariant
            a <= b < n,
            forall|j: int| b < j < n ==> is_space(s@[j]),
        decreases b,
    {
        b = b - 1;
    }
    proof {
        lemma_last_non_space_is(s@, b as int);
    }
    let piece = s.substring_char(a, b + 1);
    piece.to_owned()
}

/// An entry list of sorted, pairwise distinct strings.
pub open spec fn sorted_unique_strings(v: Seq<String>) -> bool {
    forall|i: int, j: int| 0 <= i < j < v.len() ==> chars_lt(#[trigger] v[i]@, #[trigger] v[j]@)
}

/// Inserting an element into a string sequence, described entrywise.
proof fn lemma_seq_insert_facts_str(s: Seq<String>, p: int, x: String)
    requires
        0 <= p <= s.len(),
    ensures
        s.insert(p, x).len() == s.len() + 1,
        s.insert(p, x)[p] == x,
        forall|k: int| 0 <= k < p ==> #[trigger] s.insert(p, x)[k] == s[k],
        forall|k: int| p < k < s.len() + 1 ==> #[trigger] s.insert(p, x)[k] == s[k - 1],
{
}

/// Insert a string into a sorted list unless an equal one is present.
#[verifier::rlimit(100)]
#[verifier::loop_isolation(false)]
pub(crate) fn insert_string_sorted_unique(out: &mut Vec<String>, x: String)
    requires
        sorted_unique_strings(old(out)@),
    ensures
        sorted_unique_strings(final(out)@),
        forall|i: int|
            0 <= i < final(out)@.len() ==> final(out)@[i]@ == x@ || exists|j: int|
                0 <= j < old(out)@.len() && #[trigger] final(out)@[i]@ == old(out)@[j]@,
        forall|j: int|
            #![trigger old(out)@[j]]
            0 <= j < old(out)@.len() ==> exists|i: int|
                0 <= i < final(out)@.len() && #[trigger] final(out)@[i]@ == old(out)@[j]@,
        exists|i: int| 0 <= i < final(out)@.len() && #[trigger] final(out)@[i]@ == x@,
{
    let ghost s0 = out@;
    let mut p: usize = 0;
    while p < out.len() && str_lt(out[p].as_str(), x.as_str())
        invariant
            p <= out@.len(),
            forall|k: int| 0 <= k < p ==> chars_lt(#[trigger] out@[k]@, x@),
        decreases out@.len() - p,
    {
        p = p + 1;
    }
    if p < out.len() && str_eq(out[p].as_str(), x.as_str()) {
        proof {
            assert(out@[p as int]@ == x@);
            assert forall|j: int| #![trigger s0[j]] 0 <= j < s0.len() implies exists|i: int|
                0 <= i < out@.len() && #[trigger] out@[i]@ == s0[j]@ by {
                assert(out@[j]@ == s0[j]@);
            }
        }
        return;
    }
    proof {
        if p < out@.len() {
            lemma_chars_lt_total(out@[p as int]@, x@);
            assert(chars_lt(x@, out@[p as int]@));
        }
        lemma_seq_insert_facts_str(s0, p as int, x);
    }
    out.insert(p, x);
    proof {
        assert(out@[p as int]@ == x@);
        assert forall|i: int, j: int| 0 <= i < j < out@.len() implies chars_lt(
            #[trigger] out@[i]@,
            #[trigger] out@[j]@,
        ) by {
            if j < p {
                assert(out@[i] == s0[i] && out@[j] == s0[j]);
            } else if i < p && j == p {
                assert(out@[i] == s0[i]);
            } else if i < p && j > p {
                assert(out@[i] == s0[i]);
                assert(out@[j] == s0[j - 1]);
                if j - 1 == p as int {
                    assert(chars_lt(s0[i]@, x@));
                    assert(chars_lt(x@, s0[p as int]@));
                    lemma_chars_lt_trans(s0[i]@, x@, s0[p as int]@);
                } else {
                    assert(chars_lt(s0[i]@, s0[j - 1]@));
                }
            } else if i == p {
                assert(out@[j] == s0[j - 1]);
                assert(chars_lt(x@, s0[p as int]@));
                if j - 1 > p {
                    assert(chars_lt(s0[p as int]@, s0[j - 1]@));
                    lemma_chars_lt_trans(x@, s0[p as int]@, s0[j - 1]@);
                }
            } else {
                assert(out@[i] == s0[i - 1]);
                assert(out@[j] == s0[j - 1]);
            }
        }
        assert forall|i: int| 0 <= i < out@.len() implies out@[i]@ == x@ || exists|j: int|
            0 <= j < s0.len() && #[trigger] out@[i]@ == s0[j]@ by {
            if i < p {
                assert(out@[i] == s0[i]);
                assert(out@[i]@ == s0[i]@);
            } else if i > p {
                assert(out@[i] == s0[i - 1]);
                assert(out@[i]@ == s0[i - 1]@);
            }
        }
        assert forall|j: int| #![trigger s0[j]] 0 <= j < s0.len() implies exists|i: int|
            0 <= i < out@.len() && #[trigger] out@[i]@ == s0[j]@ by {
            if j < p {
                assert(out@[j] == s0[j]);
                assert(out@[j]@ == s0[j]@);
            } else {
                assert(out@[j + 1] == s0[j]);
                assert(out@[j + 1]@ == s0[j]@);
            }
        }
    }
}

/// The normal form of a service list: every name trimmed, empty names
/// dropped, duplicates removed, the rest in ascending order.
pub open spec fn normalized_services(out: Seq<String>, input: Seq<String>) -> bool {
    &&& sorted_unique_strings(out)
    &&& forall|i: int|
        0 <= i < out.len() ==> (#[trigger] out[i]@).len() > 0 && exists|j: int|
            0 <= j < input.len() && out[i]@ == spec_trim(#[trigger] input[j]@)
    &&& forall|j: int|
        0 <= j < input.len() && spec_trim(#[trigger] input[j]@).len() > 0 ==> exists|i: int|
            0 <= i < out.len() && (#[trigger] out[i]@) == spec_trim(input[j]@)
}

/// Normalize a service-name list: trim each name, drop the empty ones,
/// sort and deduplicate the rest.
#[verifier::loop_isolation(false)]
pub fn normalize_services(services: Vec<String>) -> (r: Vec<String>)
    ensures
        normalized_services(r@, services@),
{
    let mut out: Vec<String> = Vec::new();
    let mut i: usize = 0;
    while i < services.len()
        invariant
            i <= services@.len(),
            sorted_unique_strings(out@),
            forall|k: int|
                0 <= k < out@.len() ==> (#[trigger] out@[k]@).len() > 0 && exists|j: int|
                    0 <= j < i && out@[k]@ == spec_trim(#[trigger] services@[j]@),
            forall|j: int|
                0 <= j < i && spec_trim(#[trigger] services@[j]@).len() > 0 ==> exists|k: int|
                    0 <= k < out@.len() && (#[trigger] out@[k]@) == spec_trim(services@[j]@),
        decreases services@.len() - i,
    {
        let ghost before = out@;
        let t = trim_str(services[i].as_str());
        if t.unicode_len() > 0 {
            insert_string_sorted_unique(&mut out, t);
        }
        i = i + 1;
    }
    out
}

/// A layer: an immutable randomization stratum. `ranges` is kept sorted
/// and non-overlapping; `enabled` gates visibility to requests and to the
/// service index; `services` is kept only for compatibility with older
/// configs and no longer drives the index.
pub struct Layer {
    pub layer_id: String,
    pub version: String,
    pub priority: i32,
    pub hash_key: String,
    pub salt: Option<String>,
    pub services: Vec<String>,
    pub ranges: Vec<BucketRange>,
    pub enabled: bool,
}

/// Two layers agree on every field; list fields are compared by content.
pub open spec fn same_layer(a: Layer, b: Layer) -> bool {
    &&& a.layer_id == b.layer_id
    &&& a.version == b.version
    &&& a.priority == b.priority
    &&& a.hash_key == b.hash_key
    &&& a.salt == b.salt
    &&& a.services@ == b.services@
    &&& a.ranges@ == b.ranges@
    &&& a.enabled == b.enabled
}

/// Pointwise agreement of two layer lists, field by field.
pub open spec fn same_layers(a: Seq<Layer>, b: Seq<Layer>) -> bool {
    a.len() == b.len() && forall|i: int| 0 <= i < a.len() ==> same_layer(a[i], b[i])
}

/// The salt a layer hashes with: its own when set, else layer id and
/// version joined by an underscore.
pub open spec fn spec_salt(l: Layer) -> Seq<char> {
    match l.salt {
        Some(s) => s@,
        None => l.layer_id@ + seq!['_'] + l.version@,
    }
}

impl Layer {
    /// The salt for this layer; see [`spec_salt`].
    pub fn get_salt(&self) -> (r: String)
        ensures
            r@ == spec_salt(*self),
    {
        match &self.salt {
            Some(s) => s.clone(),
            None => {
                let mut out = self.layer_id.clone();
                out.append("_");
                out.append(self.version.as_str());
                proof {
                    reveal_strlit("_");
                    assert("_"@ =~= seq!['_']);
                }
                out
            },
        }
    }

    /// The variant assigned to a bucket: the vid of the range containing
    /// it, or nothing when the bucket falls in a hole. Binary search over
    /// the sorted range list.
    #[verifier::loop_isolation(false)]
    pub fn get_vid(&self, bucket: u32) -> (r: Option<i64>)
        requires
            ranges_wf(self.ranges@),
        ensures
            r == vid_at(self.ranges@, bucket),
    {
        let ghost rs = self.ranges@;
        if bucket >= BUCKET_SIZE {
            proof {
                if vid_at(rs, bucket) is Some {
                    lemma_ranges_within_bucket_space(rs, bucket);
                }
            }
            return None;
        }
        let mut lo: usize = 0;
        let mut hi: usize = self.ranges.len();
        while lo < hi
            invariant
                lo <= hi <= rs.len(),
                forall|k: int| 0 <= k < lo ==> (#[trigger] rs[k]).start <= bucket,
                forall|k: int| hi <= k < rs.len() ==> (#[trigger] rs[k]).start > bucket,
            decreases hi - lo,
        {
            let mid = lo + (hi - lo) / 2;
            if self.ranges[mid].start <= bucket {
                proof {
                    assert forall|k: int| 0 <= k < mid + 1 implies (#[trigger] rs[k]).start
                        <= bucket by {
                        if k < mid {
                            lemma_ranges_ordered(rs, k, mid as int);
                        }
                    }
                }
                lo = mid + 1;
            } else {
                proof {
                    assert forall|k: int| mid <= k < rs.len() implies (#[trigger] rs[k]).start
                        > bucket by {
                        if k > mid {
                            lemma_ranges_ordered(rs, mid as int, k);
                        }
                    }
                }
                hi = mid;
            }
        }
        if lo > 0 {
            let c = self.ranges[lo - 1];
            if bucket < c.end {
                proof {
                    lemma_vid_at_found(rs, bucket, lo - 1);
                }
                return Some(c.vid);
            }
        }
        proof {
            assert forall|i: int| 0 <= i < rs.len() implies !in_range(#[trigger] rs[i], bucket) by {
                if i < lo - 1 {
                    lemma_ranges_ordered(rs, i, lo - 1);
                }
            }
            lemma_vid_at(rs, bucket);
            if vid_at(rs, bucket) is Some {
                assert(false);
            }
        }
        None
    }

    /// A copy that is equal, field by field, to this layer.
    #[verifier::loop_isolation(false)]
    pub fn duplicate(&self) -> (r: Layer)
        ensures
            same_layer(r, *self),
    {
        let salt = match &self.salt {
            Some(s) => {
                proof {
                    assert(self.salt == Some(*s));
                }
                Some(s.clone())
            },
            None => None,
        };
        proof {
            assert(salt == self.salt);
        }
        let mut services: Vec<String> = Vec::new();
        let mut i: usize = 0;
        while i < self.services.len()
            invariant
                i <= self.services@.len(),
                services@.len() == i,
                forall|j: int| 0 <= j < i ==> services@[j] == self.services@[j],
            decreases self.services@.len() - i,
        {
            services.push(self.services[i].clone());
            i = i + 1;
        }
        let mut ranges: Vec<BucketRange> = Vec::new();
        let mut k: usize = 0;
        while k < self.ranges.len()
            invariant
                k <= self.ranges@.len(),
                ranges@.len() == k,
                forall|j: int| 0 <= j < k ==> ranges@[j] == self.ranges@[j],
            decreases self.ranges@.len() - k,
        {
            ranges.push(self.ranges[k]);
            k = k + 1;
        }
        proof {
            assert(services@ =~= self.services@);
            assert(ranges@ =~= self.ranges@);
        }
        Layer {
            layer_id: self.layer_id.clone(),
            version: self.version.clone(),
            priority: self.priority,
            hash_key: self.hash_key.clone(),
            salt,
            services,
            ranges,
            enabled: self.enabled,
        }
    }
}

/// Parse a run of decimal digits bounded by `limit`.
#[verifier::loop_isolation(false)]
fn parse_digits_bounded(s: &str, limit: u64) -> (r: Option<u64>)
    ensures
        match r {
            Some(v) => s@.len() > 0 && (forall|j: int| 0 <= j < s@.len() ==> is_digit(s@[j]))
                && digits_val(s@) == v && v <= limit,
            None => s@.len() == 0 || !(forall|j: int| 0 <= j < s@.len() ==> is_digit(s@[j]))
                || digits_val(s@) > limit,
        },
{
    let n = s.unicode_len();
    if n == 0 {
        return None;
    }
    let mut acc: u64 = 0;
    let mut i: usize = 0;
    while i < n
        invariant
            0 < n == s@.len(),
            i <= n,
            forall|j: int| 0 <= j < i ==> is_digit(s@[j]),
            acc == digits_val(s@.take(i as int)),
            acc <= limit,
        decreases n - i,
    {
        let c = s.get_char(i);
        if c < '0' || c > '9' {
            return None;
        }
        let d: u64 = (c as u32 - '0' as u32) as u64;
        proof {
            assert(s@.take(i + 1).take(i as int) =~= s@.take(i as int));
            assert(s@.take(i + 1)[i as int] == s@[i as int]);
        }
        if acc > limit / 10 || (acc == limit / 10 && d > limit % 10) {
            proof {
                assert(digits_val(s@.take(i + 1)) > limit);
                if forall|j: int| 0 <= j < s@.len() ==> is_digit(s@[j]) {
                    crate::rule::lemma_digits_val_nonneg(s@);
                    crate::rule::lemma_digits_val_grows(s@, i + 1);
                    assert(s@.take(n as int) =~= s@);
                }
            }
            return None;
        }
        acc = acc * 10 + d;
        i = i + 1;
    }
    proof {
        assert(s@.take(n as int) =~= s@);
    }
    Some(acc)
}

/// A decimal integer literal: an optional minus sign and a run of digits
/// whose value fits a signed 64-bit integer.
pub open spec fn parse_i64(s: Seq<char>) -> Option<i64> {
    if s.len() > 0 && s[0] == '-' {
        let d = s.drop_first();
        if d.len() == 0 || !(forall|j: int| 0 <= j < d.len() ==> is_digit(d[j])) || digits_val(d)
            > (i64::MAX as int) + 1 {
            None
        } else {
            Some((0 - digits_val(d)) as i64)
        }
    } else {
        if s.len() == 0 || !(forall|j: int| 0 <= j < s.len() ==> is_digit(s[j])) || digits_val(s)
            > i64::MAX {
            None
        } else {
            Some(digits_val(s) as i64)
        }
    }
}

/// Parse a decimal integer literal as a signed 64-bit integer.
pub fn parse_i64_str(s: &str) -> (r: Option<i64>)
    ensures
        r == parse_i64(s@),
{
    let n = s.unicode_len();
    if n > 0 && s.get_char(0) == '-' {
        let rest = s.substring_char(1, n);
        proof {
            assert(rest@ =~= s@.drop_first());
        }
        match parse_digits_bounded(rest, 9223372036854775808u64) {
            Some(v) => {
                if v == 9223372036854775808u64 {
                    Some(i64::MIN)
                } else {
                    Some(-(v as i64))
                }
            },
            None => None,
        }
    } else {
        match parse_digits_bounded(s, i64::MAX as u64) {
            Some(v) => Some(v as i64),
            None => None,
        }
    }
}

/// One range entry of a layer config: either a direct variant id, or a
/// group name resolved through the config's inline group table (a name
/// that parses as a decimal integer is used as the vid directly).
pub enum RangeConfig {
    Vid { start: u32, end: u32, vid: i64 },
    Group { start: u32, end: u32, group: String },
}

/// What a range entry resolves to, if its group name can be resolved.
pub open spec fn spec_resolve_range(rc: RangeConfig, groups: Seq<(Seq<char>, i64)>) -> Option<
    BucketRange,
> {
    match rc {
        RangeConfig::Vid { start, end, vid } => Some(BucketRange { start, end, vid }),
        RangeConfig::Group { start, end, group } => match parse_i64(group@) {
            Some(v) => Some(BucketRange { start, end, vid: v }),
            None => match key_get(groups, group@) {
                Some(v) => Some(BucketRange { start, end, vid: v }),
                None => None,
            },
        },
    }
}

/// Resolve one range entry against the group table; see
/// [`spec_resolve_range`]. The error names the group that failed.
pub fn resolve_range(rc: &RangeConfig, groups: &Vec<(String, i64)>) -> (r: Result<
    BucketRange,
    ExperimentError,
>)
    ensures
        match spec_resolve_range(*rc, kview(groups@)) {
            Some(br) => r == Ok::<BucketRange, ExperimentError>(br),
            None => r matches Err(e) && e matches ExperimentError::GroupNotFound(_),
        },
{
    match rc {
        RangeConfig::Vid { start, end, vid } => {
            proof {
                assert(*rc == (RangeConfig::Vid { start: *start, end: *end, vid: *vid }));
            }
            Ok(BucketRange { start: *start, end: *end, vid: *vid })
        },
        RangeConfig::Group { start, end, group } => {
            proof {
                assert(*rc == (RangeConfig::Group {
                    start: *start,
                    end: *end,
                    group: *group,
                }));
            }
            match parse_i64_str(group.as_str()) {
                Some(v) => Ok(BucketRange { start: *start, end: *end, vid: v }),
                None => {
                    match key_find(groups, group.as_str()) {
                        Some(gi) => {
                            proof {
                                crate::assoc::lemma_key_index_of(kview(groups@), group@);
                                assert(kview(groups@)[gi as int].1 == groups@[gi as int].1);
                            }
                            Ok(BucketRange { start: *start, end: *end, vid: groups[gi].1 })
                        },
                        None => Err(ExperimentError::GroupNotFound(group.clone())),
                    }
                },
            }
        },
    }
}

/// Boundary entries ordered by starting slot.
pub open spec fn sorted_boundaries(v: Seq<(u32, String)>) -> bool {
    forall|i: int, j: int| 0 <= i < j < v.len() ==> (#[trigger] v[i]).0 <= (#[trigger] v[j]).0
}

/// Inserting an element into a boundary sequence, described entrywise.
proof fn lemma_seq_insert_facts_b(s: Seq<(u32, String)>, p: int, x: (u32, String))
    requires
        0 <= p <= s.len(),
    ensures
        s.insert(p, x).len() == s.len() + 1,
        s.insert(p, x)[p] == x,
        forall|k: int| 0 <= k < p ==> #[trigger] s.insert(p, x)[k] == s[k],
        forall|k: int| p < k < s.len() + 1 ==> #[trigger] s.insert(p, x)[k] == s[k - 1],
{
}

/// Insert a boundary entry into a list kept sorted by starting slot.
#[verifier::loop_isolation(false)]
fn insert_boundary_sorted(out: &mut Vec<(u32, String)>, x: (u32, String))
    requires
        sorted_boundaries(old(out)@),
    ensures
        sorted_boundaries(final(out)@),
        final(out)@.len() == old(out)@.len() + 1,
        forall|y: (u32, String)| #[trigger]
            final(out)@.contains(y) ==> old(out)@.contains(y) || y == x,
        forall|y: (u32, String)| #[trigger] old(out)@.contains(y) ==> final(out)@.contains(y),
        final(out)@.contains(x),
{
    let ghost s0 = out@;
    let mut p: usize = 0;
    while p < out.len() && out[p].0 <= x.0
        invariant
            p <= out@.len(),
            forall|k: int| 0 <= k < p ==> (#[trigger] out@[k]).0 <= x.0,
        decreases out@.len() - p,
    {
        p = p + 1;
    }
    out.insert(p, x);
    proof {
        lemma_seq_insert_facts_b(s0, p as int, x);
        assert forall|i: int, j: int| 0 <= i < j < out@.len() implies (#[trigger] out@[i]).0
            <= (#[trigger] out@[j]).0 by {
            if j < p {
            } else if i < p && j == p {
            } else if i < p && j > p {
                assert(out@[j] == s0[j - 1]);
            } else if i == p {
                assert(out@[j] == s0[j - 1]);
                if j - 1 >= p && (j - 1) < s0.len() {
                    if j - 1 == p {
                        assert(x.0 < s0[p as int].0 || p as int == s0.len());
                    }
                }
            } else {
                assert(out@[i] == s0[i - 1]);
                assert(out@[j] == s0[j - 1]);
            }
        }
        assert(out@[p as int] == x);
        assert(out@.contains(x));
        assert forall|y: (u32, String)| #[trigger] out@.contains(y) implies s0.contains(y) || y
            == x by {
            let k = choose|k: int| 0 <= k < out@.len() && out@[k] == y;
            if k < p {
                assert(s0[k] == y);
            } else if k > p {
                assert(s0[k - 1] == y);
            }
        }
        assert forall|y: (u32, String)| #[trigger] s0.contains(y) implies out@.contains(y) by {
            let k = choose|k: int| 0 <= k < s0.len() && s0[k] == y;
            if k < p {
                assert(out@[k] == y);
            } else {
                assert(out@[k + 1] == y);
            }
        }
    }
}

/// Convert the legacy boundary form into ranges: each boundary owns the
/// slots from its start to the next boundary's start, the last one up to
/// `BUCKET_SIZE`. Succeeds exactly when every referenced group resolves;
/// the produced ranges are ordered by start, chained end to start, and
/// each carries the vid of the group its boundary names.
#[verifier::rlimit(30)]
#[verifier::loop_isolation(false)]
pub fn convert_buckets_to_ranges(
    buckets: &Vec<(u32, String)>,
    groups: &Vec<(String, i64)>,
) -> (r: Result<Vec<BucketRange>, ExperimentError>)
    ensures
        (forall|j: int|
            0 <= j < buckets@.len() ==> has_key(kview(groups@), #[trigger] buckets@[j].1@)) ==> r
            is Ok,
        r matches Ok(out) ==> {
            &&& out@.len() == buckets@.len()
            &&& forall|i: int, j: int|
                0 <= i < j < out@.len() ==> (#[trigger] out@[i]).start <= (#[trigger] out@[j]).start
            &&& forall|i: int|
                0 <= i < out@.len() - 1 ==> (#[trigger] out@[i]).end == out@[i + 1].start
            &&& out@.len() > 0 ==> out@[out@.len() - 1].end == BUCKET_SIZE
            &&& forall|i: int|
                #![trigger out@[i]]
                0 <= i < out@.len() ==> exists|j: int|
                    0 <= j < buckets@.len() && (#[trigger] buckets@[j]).0 == out@[i].start
                        && key_get(kview(groups@), buckets@[j].1@) == Some(out@[i].vid)
        },
        r matches Err(e) ==> e matches ExperimentError::GroupNotFound(_) && exists|j: int|
            0 <= j < buckets@.len() && !has_key(kview(groups@), (#[trigger] buckets@[j]).1@),
{
    if buckets.len() == 0 {
        let out: Vec<BucketRange> = Vec::new();
        return Ok(out);
    }
    let mut sb: Vec<(u32, String)> = Vec::new();
    let mut i: usize = 0;
    while i < buckets.len()
        invariant
            i <= buckets@.len(),
            sb@.len() == i,
            sorted_boundaries(sb@),
            forall|y: (u32, String)| #[trigger] sb@.contains(y) ==> exists|j: int|
                0 <= j < i && (#[trigger] buckets@[j]).0 == y.0 && buckets@[j].1@ == y.1@,
        decreases buckets@.len() - i,
    {
        let ghost before = sb@;
        let entry = (buckets[i].0, buckets[i].1.clone());
        insert_boundary_sorted(&mut sb, entry);
        proof {
            assert forall|y: (u32, String)| #[trigger] sb@.contains(y) implies exists|j: int|
                0 <= j < i + 1 && (#[trigger] buckets@[j]).0 == y.0 && buckets@[j].1@ == y.1@ by {
                if before.contains(y) {
                } else {
                    assert(y == entry);
                    assert(buckets@[i as int].0 == y.0 && buckets@[i as int].1@ == y.1@);
                }
            }
        }
        i = i + 1;
    }
    let mut out: Vec<BucketRange> = Vec::new();
    let mut k: usize = 0;
    while k < sb.len()
        invariant
            k <= sb@.len(),
            sb@.len() == buckets@.len(),
            out@.len() == k,
            sorted_boundaries(sb@),
            forall|y: (u32, String)| #[trigger] sb@.contains(y) ==> exists|j: int|
                0 <= j < buckets@.len() && (#[trigger] buckets@[j]).0 == y.0 && buckets@[j].1@
                    == y.1@,
            forall|a: int|
                #![trigger out@[a]]
                0 <= a < k ==> out@[a].start == sb@[a].0 && out@[a].end == (if a + 1
                    < sb@.len() as int {
                    sb@[a + 1].0
                } else {
                    BUCKET_SIZE
                }) && key_get(kview(groups@), sb@[a].1@) == Some(out@[a].vid),
        decreases sb@.len() - k,
    {
        let end: u32 = if k + 1 < sb.len() {
            sb[k + 1].0
        } else {
            BUCKET_SIZE
        };
        match key_find(groups, sb[k].1.as_str()) {
            Some(gi) => {
                proof {
                    crate::assoc::lemma_key_index_of(kview(groups@), sb@[k as int].1@);
                    assert(kview(groups@)[gi as int].1 == groups@[gi as int].1);
                }
                out.push(BucketRange { start: sb[k].0, end, vid: groups[gi].1 });
            },
            None => {
                proof {
                    assert(sb@.contains(sb@[k as int]));
                    let j = choose|j: int|
                        0 <= j < buckets@.len() && (#[trigger] buckets@[j]).0 == sb@[k as int].0
                            && buckets@[j].1@ == sb@[k as int].1@;
                    assert(!has_key(kview(groups@), buckets@[j].1@));
                }
                return Err(ExperimentError::GroupNotFound(sb[k].1.clone()));
            },
        }
        k = k + 1;
    }
    proof {
        assert forall|a: int, b: int| 0 <= a < b < out@.len() implies (#[trigger] out@[a]).start
            <= (#[trigger] out@[b]).start by {
            assert(sb@[a].0 <= sb@[b].0);
        }
        assert forall|a: int|
            #![trigger out@[a]]
            0 <= a < out@.len() implies exists|j: int|
            0 <= j < buckets@.len() && (#[trigger] buckets@[j]).0 == out@[a].start && key_get(
                kview(groups@),
                buckets@[j].1@,
            ) == Some(out@[a].vid) by {
            assert(sb@.contains(sb@[a]));
            let j = choose|j: int|
                0 <= j < buckets@.len() && (#[trigger] buckets@[j]).0 == sb@[a].0
                    && buckets@[j].1@ == sb@[a].1@;
            assert(buckets@[j].0 == out@[a].start);
            assert(key_get(kview(groups@), buckets@[j].1@) == Some(out@[a].vid));
        }
        assert forall|a: int| 0 <= a < out@.len() - 1 implies (#[trigger] out@[a]).end == out@[a
            + 1].start by {
            assert(out@[a].end == sb@[a + 1].0);
            assert(out@[a + 1].start == sb@[a + 1].0);
        }
        if out@.len() > 0 {
            assert(out@[out@.len() - 1].end == BUCKET_SIZE);
        }
        assert(out@.len() == buckets@.len());
    }
    Ok(out)
}

/// A layer as configuration carries it, before normalization: either the
/// canonical `ranges` form, or the legacy `buckets` boundary form with an
/// inline `groups` table mapping group names to variant ids.
pub struct LayerConfig {
    pub layer_id: String,
    pub version: String,
    pub priority: i32,
    pub hash_key: String,
    pub salt: Option<String>,
    pub services: Vec<String>,
    pub enabled: bool,
    pub ranges: Vec<RangeConfig>,
    pub buckets: Vec<(u32, String)>,
    pub groups: Vec<(String, i64)>,
}

/// What a range list resolves to, entry by entry from position `i`;
/// nothing if any entry fails to resolve.
pub open spec fn resolved_from(
    rcs: Seq<RangeConfig>,
    groups: Seq<(Seq<char>, i64)>,
    i: int,
) -> Option<Seq<BucketRange>>
    decreases rcs.len() - i,
{
    if i < 0 || i >= rcs.len() {
        Some(Seq::empty())
    } else {
        match spec_resolve_range(rcs[i], groups) {
            None => None,
            Some(br) => match resolved_from(rcs, groups, i + 1) {
                None => None,
                Some(t) => Some(seq![br] + t),
            },
        }
    }
}

impl Layer {
    /// Build a layer from a config record: services are normalized, the
    /// range entries are resolved (or the legacy boundary form is
    /// converted), and the resulting ranges are checked and sorted. A
    /// config whose resolved ranges are in bounds and pairwise disjoint is
    /// accepted; an unresolvable group name or an invalid range list is
    /// rejected.
    #[verifier::loop_isolation(false)]
    pub fn from_config(cfg: LayerConfig) -> (r: Result<Layer, ExperimentError>)
        ensures
            r matches Ok(l) ==> {
                &&& l.layer_id == cfg.layer_id
                &&& l.version == cfg.version
                &&& l.priority == cfg.priority
                &&& l.hash_key == cfg.hash_key
                &&& l.salt == cfg.salt
                &&& l.enabled == cfg.enabled
                &&& normalized_services(l.services@, cfg.services@)
                &&& ranges_wf(l.ranges@)
                &&& cfg.ranges@.len() > 0 ==> (resolved_from(cfg.ranges@, kview(cfg.groups@), 0)
                    matches Some(rs) && l.ranges@.to_multiset() == rs.to_multiset())
                &&& cfg.ranges@.len() == 0 && cfg.buckets@.len() == 0 ==> l.ranges@.len() == 0
                &&& cfg.ranges@.len() == 0 && cfg.buckets@.len() > 0 ==> l.ranges@.len()
                    == cfg.buckets@.len()
            },
            (cfg.ranges@.len() > 0 && (resolved_from(cfg.ranges@, kview(cfg.groups@), 0) matches
                Some(rs) && bounds_ok(rs) && pairwise_disjoint(rs))) ==> r is Ok,
            r matches Err(e) ==> (e matches ExperimentError::GroupNotFound(_) || e matches
                ExperimentError::InvalidParameter(_)),
    {
        let LayerConfig {
            layer_id,
            version,
            priority,
            hash_key,
            salt,
            services,
            enabled,
            ranges: range_cfgs,
            buckets,
            groups,
        } = cfg;
        let services = normalize_services(services);
        let ghost gview = kview(groups@);
        let mut ranges: Vec<BucketRange> = Vec::new();
        if range_cfgs.len() > 0 {
            let mut i: usize = 0;
            while i < range_cfgs.len()
                invariant
                    i <= range_cfgs@.len(),
                    gview == kview(groups@),
                    match resolved_from(range_cfgs@, gview, i as int) {
                        Some(t) => resolved_from(range_cfgs@, gview, 0) == Some(ranges@ + t),
                        None => resolved_from(range_cfgs@, gview, 0) is None,
                    },
                decreases range_cfgs@.len() - i,
            {
                let ghost before = ranges@;
                match resolve_range(&range_cfgs[i], &groups) {
                    Ok(br) => {
                        ranges.push(br);
                        proof {
                            match resolved_from(range_cfgs@, gview, i + 1) {
                                Some(t) => {
                                    assert(seq![br] + t =~= resolved_from(
                                        range_cfgs@,
                                        gview,
                                        i as int,
                                    ).unwrap());
                                    assert(ranges@ + t =~= before + (seq![br] + t));
                                },
                                None => {},
                            }
                        }
                    },
                    Err(e) => {
                        return Err(e);
                    },
                }
                i = i + 1;
            }
            proof {
                assert(resolved_from(range_cfgs@, gview, i as int) == Some(
                    Seq::<BucketRange>::empty(),
                ));
                assert(ranges@ + Seq::<BucketRange>::empty() =~= ranges@);
            }
        } else if buckets.len() > 0 {
            match convert_buckets_to_ranges(&buckets, &groups) {
                Ok(converted) => {
                    ranges = converted;
                },
                Err(e) => {
                    return Err(e);
                },
            }
        }
        let ghost pre_validate = ranges@;
        match validate_and_sort_ranges(&mut ranges) {
            Ok(()) => {},
            Err(e) => {
                return Err(e);
            },
        }
        proof {
            assert(ranges@.to_multiset() == pre_validate.to_multiset());
            assert(ranges@.to_multiset().len() == ranges@.len());
            assert(pre_validate.to_multiset().len() == pre_validate.len());
        }
        Ok(
            Layer {
                layer_id,
                version,
                priority,
                hash_key,
                salt,
                services,
                ranges,
                enabled,
            },
        )
    }
}

} // verus!
