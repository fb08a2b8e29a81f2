//! Two location lists: the total distance between their sorted entries,
//! and a similarity score weighting each left entry by how often it
//! appears on the right.

use vstd::prelude::*;
use crate::text::chars_of;
use crate::text::split_lines;
use crate::text::split_newlines;
use crate::text::views_of;
use crate::reports::line_levels;
use crate::reports::line_levels_ok;
use crate::reports::report_text_ok;
use crate::reports::parse_level_line;

verus! {

/// The absolute difference of two entries.
pub open spec fn abs_diff(a: i32, b: i32) -> int {
    if a >= b {
        a - b
    } else {
        b - a
    }
}

/// How many entries are paired: the length of the shorter list.
pub open spec fn paired_len(l: Seq<i32>, r: Seq<i32>) -> int {
    if l.len() <= r.len() {
        l.len() as int
    } else {
        r.len() as int
    }
}

/// The total distance of the first `n` pairs.
pub open spec fn distance_sum(l: Seq<i32>, r: Seq<i32>, n: int) -> int
    decreases n,
{
    if n <= 0 {
        0
    } else {
        distance_sum(l, r, n - 1) + abs_diff(l[n - 1], r[n - 1])
    }
}

/// Distance sums only grow with more pairs.
proof fn lemma_distance_sum_mono(l: Seq<i32>, r: Seq<i32>, m: int, n: int)
    requires
        m <= n,
    ensures
        distance_sum(l, r, m) <= distance_sum(l, r, n),
    decreases n - m,
{
    if m < n {
        lemma_distance_sum_mono(l, r, m, n - 1);
    }
}

/// Sums the absolute differences of the paired entries, in order.
#[verifier::loop_isolation(false)]
pub fn sum_of_distances(left_list: &Vec<i32>, right_list: &Vec<i32>) -> (sum: i32)
    requires
        distance_sum(left_list@, right_list@, paired_len(left_list@, right_list@)) <= i32::MAX,
    ensures
        sum == distance_sum(left_list@, right_list@, paired_len(left_list@, right_list@)),
{
    let n = if left_list.len() <= right_list.len() {
        left_list.len()
    } else {
        right_list.len()
    };
    let mut acc: i64 = 0;
    let mut i: usize = 0;
    while i < n
        invariant
            i <= n,
            acc == distance_sum(left_list@, right_list@, i as int),
            0 <= acc <= i32::MAX,
        decreases n - i,
    {
        proof {
            lemma_distance_sum_mono(left_list@, right_list@, i + 1, n as int);
        }
        let a = left_list[i];
        let b = right_list[i];
        let d: i64 = if a >= b {
            a as i64 - b as i64
        } else {
            b as i64 - a as i64
        };
        acc = acc + d;
        i = i + 1;
    }
    acc as i32
}

/// How often `x` occurs among the first `n` entries of `r`.
pub open spec fn count_upto(r: Seq<i32>, x: i32, n: int) -> int
    decreases n,
{
    if n <= 0 {
        0
    } else {
        count_upto(r, x, n - 1) + if r[n - 1] == x {
            1int
        } else {
            0int
        }
    }
}

/// How often `x` occurs in `r`.
pub open spec fn occurrences(r: Seq<i32>, x: i32) -> int {
    count_upto(r, x, r.len() as int)
}

/// The similarity score of the first `n` left entries: each entry times
/// its number of occurrences on the right.
pub open spec fn similarity_upto(l: Seq<i32>, r: Seq<i32>, n: int) -> int
    decreases n,
{
    if n <= 0 {
        0
    } else {
        similarity_upto(l, r, n - 1) + l[n - 1] * occurrences(r, l[n - 1])
    }
}

/// Counts the occurrences of `x` in `r`.
#[verifier::loop_isolation(false)]
fn count_occurrences(r: &Vec<i32>, x: i32) -> (count: usize)
    ensures
        count == occurrences(r@, x),
{
    let mut count: usize = 0;
    let mut i: usize = 0;
    while i < r.len()
        invariant
            i <= r.len(),
            count <= i,
            count == count_upto(r@, x, i as int),
        decreases r.len() - i,
    {
        if r[i] == x {
            count = count + 1;
        }
        i = i + 1;
    }
    count
}

/// The similarity score: each left entry weighted by its occurrence
/// count on the right, summed in order.
#[verifier::loop_isolation(false)]
pub fn simularity_score(left_list: &Vec<i32>, right_list: &Vec<i32>) -> (score: i32)
    requires
        forall|n: int|
            0 <= n <= left_list@.len() ==> i32::MIN <= #[trigger] similarity_upto(
                left_list@,
                right_list@,
                n,
            ) <= i32::MAX,
    ensures
        score == similarity_upto(left_list@, right_list@, left_list@.len() as int),
{
    let mut acc: i128 = 0;
    let mut i: usize = 0;
    while i < left_list.len()
        invariant
            i <= left_list.len(),
            acc == similarity_upto(left_list@, right_list@, i as int),
            i32::MIN <= acc <= i32::MAX,
        decreases left_list.len() - i,
    {
        let x = left_list[i];
        let count = count_occurrences(right_list, x);
        proof {
            assert(similarity_upto(left_list@, right_list@, i + 1) == acc + x * occurrences(
                right_list@,
                x,
            ));
        }
        acc = acc + (x as i128) * (count as i128);
        i = i + 1;
    }
    acc as i32
}

/// `s` is sorted in non-decreasing order.
pub open spec fn sorted(s: Seq<i32>) -> bool {
    forall|i: int, j: int| 0 <= i < j < s.len() ==> s[i] <= s[j]
}

/// Sorts the entries in place: the result is the unique non-decreasing
/// arrangement of the same multiset of entries.
#[verifier::loop_isolation(false)]
pub fn sort_i32(v: &mut Vec<i32>)
    ensures
        sorted(final(v)@),
        final(v)@.to_multiset() == old(v)@.to_multiset(),
{
    broadcast use vstd::seq_lib::group_to_multiset_ensures;
    broadcast use vstd::multiset::group_multiset_axioms;

    let mut i: usize = 1;
    while i < v.len()
        invariant
            i >= 1,
            v@.len() == old(v)@.len(),
            v@.to_multiset() == old(v)@.to_multiset(),
            forall|a: int, b: int| 0 <= a < b < i && b < v@.len() ==> v@[a] <= v@[b],
        decreases v@.len() - i,
    {
        let mut j: usize = i;
        while j > 0 && v[j - 1] > v[j]
            invariant
                j <= i < v@.len(),
                v@.len() == old(v)@.len(),
                v@.to_multiset() == old(v)@.to_multiset(),
                forall|a: int, b: int| 0 <= a < b <= i && b != j ==> v@[a] <= v@[b],
            decreases j,
        {
            let ghost before = v@;
            let lower = v[j - 1];
            let upper = v[j];
            v[j - 1] = upper;
            v[j] = lower;
            proof {
                assert(v@.to_multiset() =~= before.to_multiset());
            }
            j = j - 1;
        }
        i = i + 1;
    }
}

/// The left entries of the lines that hold exactly two values.
pub open spec fn lefts_of(lines: Seq<Seq<char>>) -> Seq<i32>
    decreases lines.len(),
{
    if lines.len() == 0 {
        seq![]
    } else {
        let rest = lefts_of(lines.drop_last());
        let vals = line_levels(lines.last());
        if vals.len() == 2 {
            rest.push(vals[0])
        } else {
            rest
        }
    }
}

/// The right entries of the lines that hold exactly two values.
pub open spec fn rights_of(lines: Seq<Seq<char>>) -> Seq<i32>
    decreases lines.len(),
{
    if lines.len() == 0 {
        seq![]
    } else {
        let rest = rights_of(lines.drop_last());
        let vals = line_levels(lines.last());
        if vals.len() == 2 {
            rest.push(vals[1])
        } else {
            rest
        }
    }
}

/// Parses two location lists: each line holding exactly two values
/// contributes one entry to each list, and both lists come back sorted.
/// Returns `None` exactly when some token is not an `i32` integer
/// literal.
#[verifier::loop_isolation(false)]
pub fn parse_location_lists(input: &str) -> (r: Option<(Vec<i32>, Vec<i32>)>)
    ensures
        (r is Some) <==> report_text_ok(input@),
        r is Some ==> {
            let lines = split_lines(input@);
            &&& sorted((r->0).0@)
            &&& sorted((r->0).1@)
            &&& (r->0).0@.to_multiset() == lefts_of(lines).to_multiset()
            &&& (r->0).1@.to_multiset() == rights_of(lines).to_multiset()
        },
{
    let v = chars_of(input);
    let lines = split_newlines(&v);
    let ghost ls = split_lines(input@);
    let mut left_list: Vec<i32> = Vec::new();
    let mut right_list: Vec<i32> = Vec::new();
    let mut i: usize = 0;
    while i < lines.len()
        invariant
            i <= lines.len(),
            views_of(lines@) == ls,
            left_list@ == lefts_of(ls.take(i as int)),
            right_list@ == rights_of(ls.take(i as int)),
            forall|k: int| 0 <= k < i ==> line_levels_ok(#[trigger] ls[k]),
        decreases lines.len() - i,
    {
        proof {
            assert(ls[i as int] == lines@[i as int]@);
            assert(ls.take(i + 1).drop_last() =~= ls.take(i as int));
        }
        let parsed = parse_level_line(&lines[i]);
        match parsed {
            Some(vals) => {
                if vals.len() == 2 {
                    left_list.push(vals[0]);
                    right_list.push(vals[1]);
                }
            },
            None => {
                return None;
            },
        }
        i = i + 1;
    }
    proof {
        assert(ls.take(ls.len() as int) =~= ls);
    }
    sort_i32(&mut left_list);
    sort_i32(&mut right_list);
    Some((left_list, right_list))
}

} // verus!
