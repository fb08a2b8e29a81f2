//! Engraved stones that change on every blink: a `0` becomes `1`, a
//! stone with an even number of digits splits into its two halves, and
//! any other stone is multiplied by 2024.

use vstd::prelude::*;
use crate::text::chars_of;
use crate::text::int_value;
use crate::text::is_integer_literal;
use crate::text::tokens_of;
use crate::text::try_parse_u64_chars;
use crate::text::views_of;
use crate::text::ws_tokens;

verus! {

/// How many decimal digits `n` has; zero has one digit.
pub open spec fn num_digits(n: nat) -> nat
    decreases n,
    via num_digits_decreases
{
    if n < 10 {
        1
    } else {
        1 + num_digits(n / 10)
    }
}

#[via_fn]
proof fn num_digits_decreases(n: nat) {
    if n >= 10 {
        vstd::arithmetic::div_mod::lemma_div_is_strictly_smaller(n as int, 10);
    }
}

/// Ten to the `k`th power.
pub open spec fn pow10(k: nat) -> nat
    decreases k,
{
    if k == 0 {
        1
    } else {
        10 * pow10((k - 1) as nat)
    }
}

/// The stone's digit count is even.
pub open spec fn even_digits(n: u64) -> bool {
    num_digits(n as nat) % 2 == 0
}

/// The left and right digit halves of a stone.
pub open spec fn split_halves(n: u64) -> (u64, u64) {
    let half = pow10(num_digits(n as nat) / 2);
    (((n as nat) / half) as u64, ((n as nat) % half) as u64)
}

/// What one stone becomes on a blink.
pub open spec fn stone_rule(stone: u64) -> Seq<u64> {
    if stone == 0 {
        seq![1u64]
    } else if even_digits(stone) {
        seq![split_halves(stone).0, split_halves(stone).1]
    } else {
        seq![(stone * 2024) as u64]
    }
}

/// The stone's rule stays within `u64`.
pub open spec fn rule_ok(stone: u64) -> bool {
    stone == 0 || even_digits(stone) || stone * 2024 <= u64::MAX
}

/// Every stone's rule stays within `u64`.
pub open spec fn rules_ok(s: Seq<u64>) -> bool {
    forall|i: int| 0 <= i < s.len() ==> rule_ok(#[trigger] s[i])
}

/// One blink applied to a whole row of stones, in order.
pub open spec fn blink_once(s: Seq<u64>) -> Seq<u64>
    decreases s.len(),
{
    if s.len() == 0 {
        seq![]
    } else {
        blink_once(s.drop_last()) + stone_rule(s.last())
    }
}

/// `times` blinks applied to a row of stones.
pub open spec fn blink_times(times: nat, s: Seq<u64>) -> Seq<u64>
    decreases times,
{
    if times == 0 {
        s
    } else {
        blink_times((times - 1) as nat, blink_once(s))
    }
}

/// Every multiplication along `times` blinks of the row stays in `u64`.
pub open spec fn blinks_ok(times: nat, s: Seq<u64>) -> bool
    decreases times,
{
    if times == 0 {
        true
    } else {
        rules_ok(s) && blinks_ok((times - 1) as nat, blink_once(s))
    }
}

/// How many stones one stone becomes after `t` blinks.
pub open spec fn stones_after(stone: u64, t: nat) -> nat
    decreases t, 0nat,
{
    if t == 0 {
        1
    } else {
        row_after(stone_rule(stone), (t - 1) as nat)
    }
}

/// How many stones a row becomes after `t` blinks.
pub open spec fn row_after(s: Seq<u64>, t: nat) -> nat
    decreases t, s.len() + 1,
{
    if s.len() == 0 {
        0
    } else {
        row_after(s.drop_last(), t) + stones_after(s.last(), t)
    }
}

/// Every multiplication in the whole blink tree of one stone stays in
/// `u64`.
pub open spec fn stone_ok(stone: u64, t: nat) -> bool
    decreases t, 0nat,
{
    if t == 0 {
        true
    } else {
        rule_ok(stone) && row_ok(stone_rule(stone), (t - 1) as nat)
    }
}

/// Every multiplication in the blink trees of a row stays in `u64`.
pub open spec fn row_ok(s: Seq<u64>, t: nat) -> bool
    decreases t, s.len() + 1,
{
    if s.len() == 0 {
        true
    } else {
        row_ok(s.drop_last(), t) && stone_ok(s.last(), t)
    }
}

/// Counting per row distributes over concatenation.
proof fn lemma_row_after_concat(a: Seq<u64>, b: Seq<u64>, t: nat)
    ensures
        row_after(a + b, t) == row_after(a, t) + row_after(b, t),
    decreases b.len(),
{
    if b.len() == 0 {
        assert(a + b =~= a);
    } else {
        assert((a + b).drop_last() =~= a + b.drop_last());
        assert((a + b).last() == b.last());
        lemma_row_after_concat(a, b.drop_last(), t);
    }
}

/// Counting after one more blink equals counting one level deeper in
/// the per-stone trees.
proof fn lemma_row_after_blink(s: Seq<u64>, t: nat)
    ensures
        row_after(blink_once(s), t) == row_after(s, t + 1),
    decreases s.len(),
{
    if s.len() == 0 {
    } else {
        lemma_row_after_blink(s.drop_last(), t);
        lemma_row_after_concat(blink_once(s.drop_last()), stone_rule(s.last()), t);
        assert(stones_after(s.last(), t + 1) == row_after(stone_rule(s.last()), t));
    }
}

/// The length of a blinked row is the per-stone count: the two ways of
/// counting the stones agree.
pub proof fn lemma_blink_count(times: nat, s: Seq<u64>)
    ensures
        blink_times(times, s).len() == row_after(s, times),
    decreases times,
{
    if times == 0 {
        assert(row_after(s, 0) == s.len()) by {
            lemma_row_after_zero(s);
        }
    } else {
        lemma_blink_count((times - 1) as nat, blink_once(s));
        lemma_row_after_blink(s, (times - 1) as nat);
    }
}

/// After zero blinks every stone counts once.
proof fn lemma_row_after_zero(s: Seq<u64>)
    ensures
        row_after(s, 0) == s.len(),
    decreases s.len(),
{
    if s.len() > 0 {
        lemma_row_after_zero(s.drop_last());
        assert(stones_after(s.last(), 0) == 1);
    }
}

/// Counts never shrink when a prefix of the row is dropped: the parts
/// are bounded by the whole.
proof fn lemma_row_after_prefix(s: Seq<u64>, n: int, t: nat)
    requires
        0 <= n <= s.len(),
    ensures
        row_after(s.take(n), t) <= row_after(s, t),
    decreases s.len() - n,
{
    if n < s.len() {
        assert(s.take(n + 1).drop_last() =~= s.take(n));
        assert(s.take(n + 1).last() == s[n]);
        lemma_row_after_prefix(s, n + 1, t);
    } else {
        assert(s.take(n) =~= s);
    }
}

/// How many digits `n` has.
#[verifier::loop_isolation(false)]
pub fn count_digits(n: u64) -> (d: u64)
    ensures
        d == num_digits(n as nat),
        1 <= d <= 20,
    decreases n,
{
    proof {
        lemma_num_digits_le_20(n as nat);
    }
    if n < 10 {
        1
    } else {
        proof {
            vstd::arithmetic::div_mod::lemma_div_is_strictly_smaller(n as int, 10);
            vstd::arithmetic::div_mod::lemma_div_pos_is_pos(n as int, 10);
        }
        1 + count_digits(n / 10)
    }
}

/// No `u64` has more than twenty digits.
proof fn lemma_num_digits_le_20(n: nat)
    requires
        n <= u64::MAX,
    ensures
        num_digits(n) <= 20,
{
    lemma_pow10_values();
    lemma_num_digits_bound(n, 20);
}

/// A number below `10^k` has at most `k` digits (for positive `k`).
proof fn lemma_num_digits_bound(n: nat, k: nat)
    requires
        k >= 1,
        n < pow10(k),
    ensures
        num_digits(n) <= k,
    decreases k,
{
    if n < 10 {
    } else {
        assert(k >= 2) by {
            if k == 1 {
                assert(pow10(1nat) == 10) by {
                    reveal_with_fuel(pow10, 2);
                }
            }
        }
        assert(n / 10 < pow10((k - 1) as nat)) by {
            assert(pow10(k) == 10 * pow10((k - 1) as nat));
            vstd::arithmetic::div_mod::lemma_multiply_divide_lt(
                n as int,
                10,
                pow10((k - 1) as nat) as int,
            );
        }
        lemma_num_digits_bound(n / 10, (k - 1) as nat);
    }
}

/// `u64::MAX` needs fewer than 21 digits: `10^20` exceeds it.
pub proof fn lemma_pow10_values()
    ensures
        pow10(10nat) == 10_000_000_000,
        pow10(20nat) == 100_000_000_000_000_000_000,
        pow10(20nat) > u64::MAX,
        forall|k: nat| k <= 10 ==> #[trigger] pow10(k) <= 10_000_000_000,
{
    reveal_with_fuel(pow10, 21);
    assert(pow10(10nat) == 10_000_000_000);
    assert(pow10(20nat) == 100_000_000_000_000_000_000);
    assert forall|k: nat| k <= 10 implies #[trigger] pow10(k) <= 10_000_000_000 by {
        lemma_pow10_mono(k, 10nat);
    }
}

/// `pow10` grows with its exponent.
pub proof fn lemma_pow10_mono(a: nat, b: nat)
    requires
        a <= b,
    ensures
        pow10(a) <= pow10(b),
        pow10(a) >= 1,
    decreases b,
{
    if b > 0 {
        if a == b {
            lemma_pow10_mono((a - 1) as nat, (b - 1) as nat);
        } else {
            lemma_pow10_mono(a, (b - 1) as nat);
        }
    }
}

/// Where `num_digits(n) >= k` fails, `n < pow10(k)`... the converse
/// bound: a number with `d` digits is below `pow10(d)`.
proof fn lemma_below_pow10_digits(n: nat)
    ensures
        n < pow10(num_digits(n)),
    decreases n,
{
    if n < 10 {
        assert(pow10(1nat) == 10 * pow10(0nat));
    } else {
        vstd::arithmetic::div_mod::lemma_div_is_strictly_smaller(n as int, 10);
        vstd::arithmetic::div_mod::lemma_div_pos_is_pos(n as int, 10);
        lemma_below_pow10_digits(n / 10);
        let d = num_digits(n / 10);
        assert(pow10(d + 1) == 10 * pow10(d));
        vstd::arithmetic::div_mod::lemma_fundamental_div_mod(n as int, 10);
        vstd::arithmetic::div_mod::lemma_mod_pos_bound(n as int, 10);
        assert(n == 10 * (n as int / 10) + n as int % 10);
        assert(10 * (n as int / 10) <= 10 * (pow10(d) - 1)) by (nonlinear_arith)
            requires
                n as int / 10 <= pow10(d) - 1,
        ;
    }
}

/// Whether the stone's digit count is even.
pub fn has_even_digits(n: u64) -> (b: bool)
    ensures
        b == even_digits(n),
{
    let d = count_digits(n);
    d % 2 == 0
}

/// Ten to the `k`th power, for exponents up to ten.
#[verifier::loop_isolation(false)]
fn pow10_u64(k: u64) -> (r: u64)
    requires
        k <= 10,
    ensures
        r == pow10(k as nat),
{
    proof {
        lemma_pow10_values();
    }
    let mut r: u64 = 1;
    let mut j: u64 = 0;
    while j < k
        invariant
            j <= k,
            r == pow10(j as nat),
        decreases k - j,
    {
        proof {
            lemma_pow10_mono(j as nat + 1, 10nat);
        }
        r = r * 10;
        j = j + 1;
    }
    r
}

/// Splits a stone into its left and right digit halves.
pub fn split_in_half(n: u64) -> (r: (u64, u64))
    ensures
        r.0 == split_halves(n).0,
        r.1 == split_halves(n).1,
{
    let d = count_digits(n);
    let half = pow10_u64(d / 2);
    proof {
        lemma_pow10_mono(0nat, (d / 2) as nat);
    }
    (n / half, n % half)
}

/// What one stone becomes on a blink.
pub fn apply_rule(stone: u64) -> (r: Vec<u64>)
    requires
        rule_ok(stone),
    ensures
        r@ == stone_rule(stone),
{
    let mut r: Vec<u64> = Vec::new();
    if stone == 0 {
        r.push(1);
        proof {
            assert(r@ =~= stone_rule(stone));
        }
    } else if has_even_digits(stone) {
        let (left, right) = split_in_half(stone);
        r.push(left);
        r.push(right);
        proof {
            assert(r@ =~= stone_rule(stone));
        }
    } else {
        r.push(stone * 2024);
        proof {
            assert(r@ =~= stone_rule(stone));
        }
    }
    r
}

/// One blink applied to a whole row of stones.
#[verifier::loop_isolation(false)]
pub fn apply_rules(stones: &Vec<u64>) -> (r: Vec<u64>)
    requires
        rules_ok(stones@),
    ensures
        r@ == blink_once(stones@),
{
    let mut r: Vec<u64> = Vec::new();
    let mut i: usize = 0;
    proof {
        assert(r@ =~= blink_once(stones@.take(0)));
    }
    while i < stones.len()
        invariant
            i <= stones.len(),
            r@ == blink_once(stones@.take(i as int)),
        decreases stones.len() - i,
    {
        proof {
            assert(stones@.take(i + 1).drop_last() =~= stones@.take(i as int));
            assert(stones@.take(i + 1).last() == stones@[i as int]);
        }
        let mut piece = apply_rule(stones[i]);
        r.append(&mut piece);
        i = i + 1;
    }
    proof {
        assert(stones@.take(stones@.len() as int) =~= stones@);
    }
    r
}

/// `times` blinks applied to a row of stones.
#[verifier::loop_isolation(false)]
pub fn blink(times: usize, stones: &Vec<u64>) -> (r: Vec<u64>)
    requires
        blinks_ok(times as nat, stones@),
    ensures
        r@ == blink_times(times as nat, stones@),
{
    let mut current = crate::text::copy_vec(stones);
    let mut t: usize = 0;
    while t < times
        invariant
            t <= times,
            blinks_ok((times - t) as nat, current@),
            blink_times(times as nat, stones@) == blink_times((times - t) as nat, current@),
        decreases times - t,
    {
        current = apply_rules(&current);
        t = t + 1;
    }
    current
}

/// How many stones one stone becomes after `t` blinks.
#[verifier::loop_isolation(false)]
fn count_single(stone: u64, t: usize) -> (count: usize)
    requires
        stone_ok(stone, t as nat),
        stones_after(stone, t as nat) <= usize::MAX,
    ensures
        count == stones_after(stone, t as nat),
    decreases t,
{
    if t == 0 {
        1
    } else {
        let parts = apply_rule(stone);
        let ghost row = stone_rule(stone);
        let mut count: usize = 0;
        let mut i: usize = 0;
        proof {
            assert(row.take(0) =~= Seq::<u64>::empty());
        }
        let ghost tm1 = (t - 1) as nat;
        let mut j: usize = 0;
        while j < parts.len()
            invariant
                j <= parts.len(),
                parts@ == row,
                tm1 == (t - 1) as nat,
                t >= 1,
                stone_ok(stone, t as nat),
                stones_after(stone, t as nat) <= usize::MAX,
                count == row_after(row.take(j as int), tm1),
            decreases parts.len() - j,
        {
            proof {
                assert(row.take(j + 1).drop_last() =~= row.take(j as int));
                assert(row.take(j + 1).last() == row[j as int]);
                lemma_row_ok_prefix(row, j as int, tm1);
                lemma_row_after_prefix(row, j + 1, tm1);
                assert(row.take(row.len() as int) =~= row);
            }
            let c = count_single(parts[j], t - 1);
            count = count + c;
            j = j + 1;
        }
        proof {
            assert(row.take(row.len() as int) =~= row);
        }
        count
    }
}

/// Each stone of a well-formed row is itself well formed.
proof fn lemma_row_ok_prefix(s: Seq<u64>, n: int, t: nat)
    requires
        0 <= n < s.len(),
        row_ok(s, t),
    ensures
        stone_ok(s[n], t),
    decreases s.len(),
{
    if n == s.len() - 1 {
    } else {
        lemma_row_ok_prefix(s.drop_last(), n, t);
    }
}

/// How many stones a whole row becomes after `times` blinks, counted
/// stone by stone without materialising the row.
#[verifier::loop_isolation(false)]
pub fn blink_count(times: usize, stones: &[u64]) -> (count: usize)
    requires
        row_ok(stones@, times as nat),
        row_after(stones@, times as nat) <= usize::MAX,
    ensures
        count == blink_times(times as nat, stones@).len(),
{
    proof {
        lemma_blink_count(times as nat, stones@);
    }
    let mut count: usize = 0;
    let mut i: usize = 0;
    proof {
        assert(stones@.take(0) =~= Seq::<u64>::empty());
    }
    while i < stones.len()
        invariant
            i <= stones@.len(),
            count == row_after(stones@.take(i as int), times as nat),
        decreases stones@.len() - i,
    {
        proof {
            assert(stones@.take(i + 1).drop_last() =~= stones@.take(i as int));
            assert(stones@.take(i + 1).last() == stones@[i as int]);
            lemma_row_ok_prefix(stones@, i as int, times as nat);
            lemma_row_after_prefix(stones@, i + 1, times as nat);
            assert(stones@.take(stones@.len() as int) =~= stones@);
        }
        let c = count_single(*vstd::slice::slice_index_get(stones, i), times);
        count = count + c;
        i = i + 1;
    }
    proof {
        assert(stones@.take(stones@.len() as int) =~= stones@);
    }
    count
}

/// The stones engraved on one piece of input text.
pub open spec fn stone_values(s: Seq<char>) -> Seq<u64> {
    ws_tokens(s).map_values(|t: Seq<char>| (int_value(t) as u64))
}

/// Every token of the text is a `u64` integer literal.
pub open spec fn stone_text_ok(s: Seq<char>) -> bool {
    forall|j: int|
        0 <= j < ws_tokens(s).len() ==> {
            &&& is_integer_literal(#[trigger] ws_tokens(s)[j])
            &&& ws_tokens(s)[j][0] != '-'
            &&& int_value(ws_tokens(s)[j]) <= u64::MAX
        }
}

/// Parses a whitespace-separated row of stones.  Returns `None` exactly
/// when some token is not a `u64` integer literal.
#[verifier::loop_isolation(false)]
pub fn parse_stones(input: &str) -> (r: Option<Vec<u64>>)
    ensures
        (r is Some) <==> stone_text_ok(input@),
        r is Some ==> (r->0)@ == stone_values(input@),
{
    let v = chars_of(input);
    let tokens = tokens_of(&v);
    let ghost toks = ws_tokens(input@);
    let mut vals: Vec<u64> = Vec::new();
    let mut j: usize = 0;
    while j < tokens.len()
        invariant
            j <= tokens.len(),
            views_of(tokens@) == toks,
            vals@ == toks.take(j as int).map_values(|t: Seq<char>| (int_value(t) as u64)),
            forall|k: int|
                0 <= k < j ==> {
                    &&& is_integer_literal(#[trigger] toks[k])
                    &&& toks[k][0] != '-'
                    &&& int_value(toks[k]) <= u64::MAX
                },
        decreases tokens.len() - j,
    {
        proof {
            assert(toks[j as int] == tokens@[j as int]@);
        }
        let parsed = try_parse_u64_chars(&tokens[j]);
        match parsed {
            Some(value) => {
                vals.push(value);
                proof {
                    assert(vals@ =~= toks.take(j + 1).map_values(
                        |t: Seq<char>| (int_value(t) as u64),
                    ));
                }
            },
            None => {
                return None;
            },
        }
        j = j + 1;
    }
    proof {
        assert(toks.take(toks.len() as int) =~= toks);
        assert(stone_values(input@) =~= toks.map_values(|t: Seq<char>| (int_value(t) as u64)));
    }
    Some(vals)
}

} // verus!
