//! Page updates checked against precedence rules: a rule `a|b` says
//! page `a` must come before page `b`.  Valid updates are kept as they
//! are; invalid ones are re-ordered by a stable insertion pass that
//! moves a page down while it must precede its predecessor.

use std::collections::HashMap;
use vstd::prelude::*;
use crate::text::chars_of;
use crate::text::copy_vec;
use crate::text::int_value;
use crate::text::is_integer_literal;
use crate::text::split_at_char;
use crate::text::split_lines;
use crate::text::split_char;
use crate::text::split_newlines;
use crate::text::try_parse_u64_chars;
use crate::text::views_of;

verus! {

broadcast use vstd::std_specs::hash::group_hash_axioms;

/// Rule `a|b` exists: `a` must be printed before `b`.
pub open spec fn precedes(rules: Map<usize, Vec<usize>>, a: usize, b: usize) -> bool {
    rules.contains_key(a) && rules[a]@.contains(b)
}

/// No page of the update is required to precede an earlier page.
pub open spec fn update_valid(rules: Map<usize, Vec<usize>>, update: Seq<usize>) -> bool {
    forall|i: int, j: int|
        0 <= i < j < update.len() ==> !precedes(rules, #[trigger] update[j], #[trigger] update[i])
}

/// The updates that respect the rules, in order.
pub open spec fn valid_updates(rules: Map<usize, Vec<usize>>, updates: Seq<Vec<usize>>) -> Seq<
    Seq<usize>,
>
    decreases updates.len(),
{
    if updates.len() == 0 {
        seq![]
    } else {
        let rest = valid_updates(rules, updates.drop_last());
        if update_valid(rules, updates.last()@) {
            rest.push(updates.last()@)
        } else {
            rest
        }
    }
}

/// The updates that break the rules, in order.
pub open spec fn invalid_updates(rules: Map<usize, Vec<usize>>, updates: Seq<Vec<usize>>) -> Seq<
    Seq<usize>,
>
    decreases updates.len(),
{
    if updates.len() == 0 {
        seq![]
    } else {
        let rest = invalid_updates(rules, updates.drop_last());
        if update_valid(rules, updates.last()@) {
            rest
        } else {
            rest.push(updates.last()@)
        }
    }
}

/// Whether `v` contains `x`.
fn contains_usize(v: &Vec<usize>, x: usize) -> (b: bool)
    ensures
        b == v@.contains(x),
{
    let mut i: usize = 0;
    while i < v.len()
        invariant
            i <= v@.len(),
            forall|j: int| 0 <= j < i ==> v@[j] != x,
        decreases v@.len() - i,
    {
        if v[i] == x {
            return true;
        }
        i = i + 1;
    }
    false
}

/// Whether a rule says `a` must precede `b`.
fn rule_precedes(rules: &HashMap<usize, Vec<usize>>, a: usize, b: usize) -> (r: bool)
    ensures
        r == precedes(rules@, a, b),
{
    match rules.get(&a) {
        Some(afters) => contains_usize(afters, b),
        None => false,
    }
}

/// Whether the update respects every rule.
#[verifier::loop_isolation(false)]
pub fn is_valid_update(rules: &HashMap<usize, Vec<usize>>, update: &Vec<usize>) -> (b: bool)
    ensures
        b == update_valid(rules@, update@),
{
    let mut j: usize = 0;
    while j < update.len()
        invariant
            j <= update@.len(),
            forall|a: int, b: int|
                0 <= a < b < j ==> !precedes(rules@, #[trigger] update@[b], #[trigger] update@[a]),
        decreases update@.len() - j,
    {
        let mut i: usize = 0;
        while i < j
            invariant
                i <= j < update@.len(),
                forall|a: int, b: int|
                    0 <= a < b < j ==> !precedes(
                        rules@,
                        #[trigger] update@[b],
                        #[trigger] update@[a],
                    ),
                forall|a: int|
                    0 <= a < i ==> !precedes(rules@, update@[j as int], #[trigger] update@[a]),
            decreases j - i,
        {
            if rule_precedes(rules, update[j], update[i]) {
                return false;
            }
            i = i + 1;
        }
        j = j + 1;
    }
    true
}

/// Splits the updates into those that respect the rules and those that
/// break them, keeping the original order within each group.
#[verifier::loop_isolation(false)]
pub fn split_valid_and_invalid_updates(
    rules: &HashMap<usize, Vec<usize>>,
    updates: &Vec<Vec<usize>>,
) -> (r: (Vec<Vec<usize>>, Vec<Vec<usize>>))
    ensures
        views_of(r.0@) == valid_updates(rules@, updates@),
        views_of(r.1@) == invalid_updates(rules@, updates@),
{
    let mut valid: Vec<Vec<usize>> = Vec::new();
    let mut invalid: Vec<Vec<usize>> = Vec::new();
    let mut i: usize = 0;
    proof {
        assert(views_of(valid@) =~= valid_updates(rules@, updates@.take(0)));
        assert(views_of(invalid@) =~= invalid_updates(rules@, updates@.take(0)));
    }
    while i < updates.len()
        invariant
            i <= updates@.len(),
            views_of(valid@) == valid_updates(rules@, updates@.take(i as int)),
            views_of(invalid@) == invalid_updates(rules@, updates@.take(i as int)),
        decreases updates@.len() - i,
    {
        proof {
            assert(updates@.take(i + 1).drop_last() =~= updates@.take(i as int));
            assert(updates@.take(i + 1).last() == updates@[i as int]);
        }
        let u = copy_vec(&updates[i]);
        let ghost u_view = u@;
        if is_valid_update(rules, &u) {
            let ghost prev = valid@;
            valid.push(u);
            proof {
                assert(views_of(valid@) =~= views_of(prev).push(u_view));
            }
        } else {
            let ghost prev = invalid@;
            invalid.push(u);
            proof {
                assert(views_of(invalid@) =~= views_of(prev).push(u_view));
            }
        }
        i = i + 1;
    }
    proof {
        assert(updates@.take(updates@.len() as int) =~= updates@);
    }
    (valid, invalid)
}

/// One bubbling pass of the insertion sort: the page at `j` moves down
/// while a rule orders it before its predecessor.
pub open spec fn bubble_down(rules: Map<usize, Vec<usize>>, s: Seq<usize>, j: int) -> Seq<usize>
    decreases j,
{
    if j <= 0 || j >= s.len() || !precedes(rules, s[j], s[j - 1]) {
        s
    } else {
        bubble_down(rules, s.update(j - 1, s[j]).update(j, s[j - 1]), j - 1)
    }
}

/// The stable insertion pass over a whole update, from position `i` on.
pub open spec fn rule_sort_from(rules: Map<usize, Vec<usize>>, s: Seq<usize>, i: int) -> Seq<usize>
    decreases s.len() - i,
    via rule_sort_from_decreases
{
    if i < 1 || i >= s.len() {
        s
    } else {
        rule_sort_from(rules, bubble_down(rules, s, i), i + 1)
    }
}

/// Bubbling keeps the length of the update.
proof fn lemma_bubble_down_len(rules: Map<usize, Vec<usize>>, s: Seq<usize>, j: int)
    ensures
        bubble_down(rules, s, j).len() == s.len(),
    decreases j,
{
    if !(j <= 0 || j >= s.len() || !precedes(rules, s[j], s[j - 1])) {
        lemma_bubble_down_len(rules, s.update(j - 1, s[j]).update(j, s[j - 1]), j - 1);
    }
}

#[via_fn]
proof fn rule_sort_from_decreases(rules: Map<usize, Vec<usize>>, s: Seq<usize>, i: int) {
    lemma_bubble_down_len(rules, s, i);
}

/// The rule-respecting arrangement of one update: the insertion pass
/// started at position one.
pub open spec fn rule_sorted(rules: Map<usize, Vec<usize>>, s: Seq<usize>) -> Seq<usize> {
    rule_sort_from(rules, s, 1)
}

/// Re-orders one update by the stable insertion pass.
#[verifier::loop_isolation(false)]
fn sort_update(rules: &HashMap<usize, Vec<usize>>, update: &Vec<usize>) -> (r: Vec<usize>)
    ensures
        r@ == rule_sorted(rules@, update@),
{
    let mut v = copy_vec(update);
    let mut i: usize = 1;
    while i < v.len()
        invariant
            1 <= i,
            v@.len() == update@.len(),
            rule_sorted(rules@, update@) == rule_sort_from(rules@, v@, i as int),
        decreases v@.len() - i,
    {
        let ghost v_begin = v@;
        let mut j: usize = i;
        while j > 0 && rule_precedes(rules, v[j], v[j - 1])
            invariant
                j <= i < v@.len(),
                v@.len() == update@.len(),
                bubble_down(rules@, v_begin, i as int) == bubble_down(rules@, v@, j as int),
            decreases j,
        {
            let ghost before = v@;
            let lower = v[j - 1];
            let upper = v[j];
            v[j - 1] = upper;
            v[j] = lower;
            proof {
                assert(v@ =~= before.update(j - 1, before[j as int]).update(
                    j as int,
                    before[j - 1],
                ));
            }
            j = j - 1;
        }
        proof {
            assert(bubble_down(rules@, v@, j as int) == v@);
            lemma_bubble_down_len(rules@, v_begin, i as int);
        }
        i = i + 1;
    }
    proof {
        if update@.len() == 0 {
            assert(rule_sort_from(rules@, v@, 1) == v@);
        }
    }
    v
}

/// Re-orders every update by the stable insertion pass.
#[verifier::loop_isolation(false)]
pub fn valid_sort(rules: &HashMap<usize, Vec<usize>>, updates: &Vec<Vec<usize>>) -> (r: Vec<
    Vec<usize>,
>)
    ensures
        r@.len() == updates@.len(),
        forall|i: int| 0 <= i < r@.len() ==> (#[trigger] r@[i])@ == rule_sorted(
            rules@,
            updates@[i]@,
        ),
{
    let mut r: Vec<Vec<usize>> = Vec::new();
    let mut i: usize = 0;
    while i < updates.len()
        invariant
            i <= updates@.len(),
            r@.len() == i,
            forall|k: int| 0 <= k < i ==> (#[trigger] r@[k])@ == rule_sorted(
                rules@,
                updates@[k]@,
            ),
        decreases updates@.len() - i,
    {
        let sorted_update = sort_update(rules, &updates[i]);
        r.push(sorted_update);
        i = i + 1;
    }
    r
}

/// The sum of the middle page of every update.
pub open spec fn middle_sum(updates: Seq<Vec<usize>>) -> int
    decreases updates.len(),
{
    if updates.len() == 0 {
        0
    } else {
        middle_sum(updates.drop_last()) + updates.last()@[updates.last()@.len() as int / 2]
    }
}

/// Middle sums only grow with more updates.
proof fn lemma_middle_sum_mono(updates: Seq<Vec<usize>>, m: int, n: int)
    requires
        0 <= m <= n <= updates.len(),
        forall|i: int| 0 <= i < updates.len() ==> (#[trigger] updates[i])@.len() > 0,
    ensures
        middle_sum(updates.take(m)) <= middle_sum(updates.take(n)),
    decreases n - m,
{
    if m < n {
        assert(updates.take(n).drop_last() =~= updates.take(n - 1));
        assert(updates.take(n).last() == updates[n - 1]);
        lemma_middle_sum_mono(updates, m, n - 1);
    }
}

/// Sums the middle page of every update.
#[verifier::loop_isolation(false)]
pub fn sum_of_middle_updates(updates: &Vec<Vec<usize>>) -> (sum: usize)
    requires
        forall|i: int| 0 <= i < updates@.len() ==> (#[trigger] updates@[i])@.len() > 0,
        middle_sum(updates@) <= usize::MAX,
    ensures
        sum == middle_sum(updates@),
{
    let mut sum: usize = 0;
    let mut i: usize = 0;
    while i < updates.len()
        invariant
            i <= updates@.len(),
            sum == middle_sum(updates@.take(i as int)),
        decreases updates@.len() - i,
    {
        proof {
            assert(updates@.take(i + 1).drop_last() =~= updates@.take(i as int));
            assert(updates@.take(i + 1).last() == updates@[i as int]);
            lemma_middle_sum_mono(updates@, i + 1, updates@.len() as int);
            assert(updates@.take(updates@.len() as int) =~= updates@);
        }
        let u = &updates[i];
        sum = sum + u[u.len() / 2];
        i = i + 1;
    }
    proof {
        assert(updates@.take(updates@.len() as int) =~= updates@);
    }
    sum
}

/// A line is a rule: `left|right`, both `usize` page numbers.
pub open spec fn rule_line_ok(line: Seq<char>) -> bool {
    let parts = split_at_char(line, '|');
    &&& parts.len() == 2
    &&& is_integer_literal(parts[0]) && parts[0][0] != '-' && int_value(parts[0]) <= usize::MAX
    &&& is_integer_literal(parts[1]) && parts[1][0] != '-' && int_value(parts[1]) <= usize::MAX
}

/// The left page of a rule line.
pub open spec fn rule_left(line: Seq<char>) -> usize {
    int_value(split_at_char(line, '|')[0]) as usize
}

/// The right page of a rule line.
pub open spec fn rule_right(line: Seq<char>) -> usize {
    int_value(split_at_char(line, '|')[1]) as usize
}

/// The right pages of every rule line whose left page is `a`, in order.
pub open spec fn rights_for(lines: Seq<Seq<char>>, a: usize) -> Seq<usize>
    decreases lines.len(),
{
    if lines.len() == 0 {
        seq![]
    } else {
        let rest = rights_for(lines.drop_last(), a);
        if rule_left(lines.last()) == a {
            rest.push(rule_right(lines.last()))
        } else {
            rest
        }
    }
}

/// A line is an update: comma-separated `usize` page numbers.
pub open spec fn update_line_ok(line: Seq<char>) -> bool {
    forall|j: int|
        0 <= j < split_at_char(line, ',').len() ==> {
            &&& is_integer_literal(#[trigger] split_at_char(line, ',')[j])
            &&& split_at_char(line, ',')[j][0] != '-'
            &&& int_value(split_at_char(line, ',')[j]) <= usize::MAX
        }
}

/// The pages of an update line.
pub open spec fn update_line_pages(line: Seq<char>) -> Seq<usize> {
    split_at_char(line, ',').map_values(|t: Seq<char>| (int_value(t) as usize))
}

/// The input text splits into a rules section and an updates section at
/// the first empty line, every rule line is well formed, and every
/// update line is well formed.
pub open spec fn update_text_ok(s: Seq<char>) -> bool {
    let lines = split_lines(s);
    let cut = first_empty_line(lines);
    &&& cut < lines.len()
    &&& forall|i: int| 0 <= i < cut ==> rule_line_ok(#[trigger] lines[i])
    &&& forall|i: int| cut < i < lines.len() ==> update_line_ok(#[trigger] lines[i])
}

/// The index of the first empty line, or the line count.
pub open spec fn first_empty_line(lines: Seq<Seq<char>>) -> int
    decreases lines.len(),
{
    if lines.len() == 0 {
        0
    } else if lines[0].len() == 0 {
        0
    } else {
        1 + first_empty_line(lines.drop_first())
    }
}

proof fn lemma_first_empty_line(lines: Seq<Seq<char>>)
    ensures
        0 <= first_empty_line(lines) <= lines.len(),
        forall|j: int| 0 <= j < first_empty_line(lines) ==> (#[trigger] lines[j]).len() != 0,
        first_empty_line(lines) < lines.len() ==> lines[first_empty_line(lines)].len() == 0,
    decreases lines.len(),
{
    if lines.len() > 0 && lines[0].len() != 0 {
        lemma_first_empty_line(lines.drop_first());
        assert forall|j: int| 0 <= j < first_empty_line(lines) implies (#[trigger] lines[j]).len()
            != 0 by {
            if j > 0 {
                assert(lines.drop_first()[j - 1] == lines[j]);
            }
        }
    }
}

/// The updates listed after the first empty line.
pub open spec fn updates_of(lines: Seq<Seq<char>>, cut: int) -> Seq<Seq<usize>>
    decreases lines.len(),
{
    if lines.len() == 0 || cut + 1 >= lines.len() {
        seq![]
    } else {
        updates_of(lines.drop_last(), cut).push(update_line_pages(lines.last()))
    }
}

/// Parses the rules and updates text.  Returns `None` exactly when the
/// text has no empty separator line, some rule line is not `a|b`, or
/// some page is not a `usize` number.
#[verifier::loop_isolation(false)]
pub fn parse_update_text(input: &str) -> (r: Option<(HashMap<usize, Vec<usize>>, Vec<Vec<usize>>)>)
    ensures
        (r is Some) <==> update_text_ok(input@),
        r is Some ==> {
            let lines = split_lines(input@);
            let cut = first_empty_line(lines);
            let rules = (r->0).0;
            let updates = (r->0).1;
            &&& forall|a: usize|
                rules@.contains_key(a) <==> #[trigger] rights_for(lines.take(cut), a).len() > 0
            &&& forall|a: usize| #[trigger]
                rules@.contains_key(a) ==> rules@[a]@ == rights_for(lines.take(cut), a)
            &&& views_of(updates@) == updates_of(lines, cut)
        },
{
    let v = chars_of(input);
    let lines = split_newlines(&v);
    let ghost ls = split_lines(input@);
    proof {
        lemma_first_empty_line(ls);
    }

    // Find the empty separator line.
    let mut cut: usize = 0;
    while cut < lines.len() && lines[cut].len() != 0
        invariant
            cut <= lines@.len(),
            views_of(lines@) == ls,
            forall|j: int| 0 <= j < cut ==> (#[trigger] ls[j]).len() != 0,
        decreases lines@.len() - cut,
    {
        cut = cut + 1;
    }
    proof {
        assert(cut == first_empty_line(ls)) by {
            let f = first_empty_line(ls);
            if cut < f {
                assert(ls[cut as int].len() != 0);
                assert(ls[cut as int] == lines@[cut as int]@);
            }
            if f < cut {
                assert(ls[f].len() == 0);
            }
        }
    }
    if cut == lines.len() {
        return None;
    }

    // The rules, grouped by their left page.
    let mut rules: HashMap<usize, Vec<usize>> = HashMap::new();
    let mut i: usize = 0;
    while i < cut
        invariant
            i <= cut < lines@.len(),
            views_of(lines@) == ls,
            cut == first_empty_line(ls),
            forall|j: int| 0 <= j < i ==> rule_line_ok(#[trigger] ls[j]),
            forall|a: usize|
                rules@.contains_key(a) <==> #[trigger] rights_for(
                    ls.take(cut as int).take(i as int),
                    a,
                ).len() > 0,
            forall|a: usize| #[trigger]
                rules@.contains_key(a) ==> rules@[a]@ == rights_for(
                    ls.take(cut as int).take(i as int),
                    a,
                ),
        decreases cut - i,
    {
        proof {
            assert(ls[i as int] == lines@[i as int]@);
        }
        let parts = split_char(&lines[i], '|');
        if parts.len() != 2 {
            return None;
        }
        proof {
            assert(views_of(parts@)[0] == parts@[0]@);
            assert(views_of(parts@)[1] == parts@[1]@);
        }
        let left = match try_parse_u64_chars(&parts[0]) {
            Some(value) => {
                if value > usize::MAX as u64 {
                    return None;
                }
                value as usize
            },
            None => {
                return None;
            },
        };
        let right = match try_parse_u64_chars(&parts[1]) {
            Some(value) => {
                if value > usize::MAX as u64 {
                    return None;
                }
                value as usize
            },
            None => {
                return None;
            },
        };
        proof {
            assert(rule_line_ok(ls[i as int]));
            assert(left == rule_left(ls[i as int]));
            assert(right == rule_right(ls[i as int]));
        }
        let ghost rules_prev = rules@;
        let ghost had = rules@.contains_key(left);
        let entry = match rules.get(&left) {
            Some(afters) => {
                let mut nv = copy_vec(afters);
                nv.push(right);
                nv
            },
            None => {
                let mut nv: Vec<usize> = Vec::new();
                nv.push(right);
                nv
            },
        };
        let ghost entry_view = entry@;
        rules.insert(left, entry);
        proof {
            let prefix_old = ls.take(cut as int).take(i as int);
            let prefix_new = ls.take(cut as int).take(i + 1);
            assert(prefix_new.drop_last() =~= prefix_old);
            assert(prefix_new.last() == ls[i as int]);
            assert(rights_for(prefix_new, left) == rights_for(prefix_old, left).push(right));
            if had {
                assert(entry_view == rules_prev[left]@.push(right));
            } else {
                assert(rights_for(prefix_old, left).len() == 0);
                assert(rights_for(prefix_old, left) =~= Seq::<usize>::empty());
                assert(entry_view =~= rights_for(prefix_old, left).push(right));
            }
            assert(rules@[left]@ == entry_view);
            assert forall|a: usize|
                rules@.contains_key(a) <==> #[trigger] rights_for(prefix_new, a).len() > 0 by {
                if a != left {
                    assert(rights_for(prefix_new, a) =~= rights_for(prefix_old, a));
                }
            }
            assert forall|a: usize| #[trigger]
                rules@.contains_key(a) implies rules@[a]@ == rights_for(prefix_new, a) by {
                if a == left {
                    assert(rules@[left]@ == entry_view);
                } else {
                    assert(rights_for(prefix_new, a) =~= rights_for(prefix_old, a));
                    assert(rules_prev.contains_key(a));
                    assert(rules@[a] == rules_prev[a]);
                }
            }
        }
        i = i + 1;
    }

    // The updates after the separator.
    let mut updates: Vec<Vec<usize>> = Vec::new();
    let mut i: usize = cut + 1;
    while i < lines.len()
        invariant
            cut < lines@.len(),
            cut + 1 <= i <= lines@.len() || i == cut + 1,
            views_of(lines@) == ls,
            cut == first_empty_line(ls),
            forall|j: int| cut < j < i ==> update_line_ok(#[trigger] ls[j]),
            views_of(updates@) == updates_of(ls.take(i as int), cut as int),
        decreases lines@.len() - i,
    {
        proof {
            assert(ls[i as int] == lines@[i as int]@);
            assert(ls.take(i + 1).drop_last() =~= ls.take(i as int));
            assert(ls.take(i + 1).last() == ls[i as int]);
        }
        let parts = split_char(&lines[i], ',');
        let ghost toks = split_at_char(ls[i as int], ',');
        let mut pages: Vec<usize> = Vec::new();
        let mut j: usize = 0;
        while j < parts.len()
            invariant
                j <= parts.len(),
                views_of(parts@) == toks,
                pages@ == toks.take(j as int).map_values(|t: Seq<char>| (int_value(t) as usize)),
                forall|k: int|
                    0 <= k < j ==> {
                        &&& is_integer_literal(#[trigger] toks[k])
                        &&& toks[k][0] != '-'
                        &&& int_value(toks[k]) <= usize::MAX
                    },
            decreases parts.len() - j,
        {
            proof {
                assert(toks[j as int] == parts@[j as int]@);
            }
            match try_parse_u64_chars(&parts[j]) {
                Some(value) => {
                    if value > usize::MAX as u64 {
                        return None;
                    }
                    pages.push(value as usize);
                    proof {
                        assert(pages@ =~= toks.take(j + 1).map_values(
                            |t: Seq<char>| (int_value(t) as usize),
                        ));
                    }
                },
                None => {
                    return None;
                },
            }
            j = j + 1;
        }
        proof {
            assert(toks.take(toks.len() as int) =~= toks);
            assert(pages@ =~= update_line_pages(ls[i as int]));
        }
        let ghost prev = updates@;
        let ghost pages_view = pages@;
        updates.push(pages);
        proof {
            assert(views_of(updates@) =~= views_of(prev).push(pages_view));
        }
        i = i + 1;
    }
    proof {
        assert(ls.take(ls.len() as int) =~= ls);
        assert(ls.take(cut as int).take(cut as int) =~= ls.take(cut as int));
    }
    Some((rules, updates))
}

} // verus!
