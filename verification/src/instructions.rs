//! A corrupted instruction stream scanned for `mul(a,b)` instructions.
//! The conditional variant first removes every span from a `don't()` to
//! the nearest following `do()` (or the end of the stream), then sums
//! what is left.

use vstd::prelude::*;
use crate::text::all_digits;
use crate::text::chars_of;
use crate::text::digits_val;
use crate::text::digits_to_u64;
use crate::text::is_digit_char;
use crate::text::lemma_digits_val_nonneg;

verus! {

/// The length of the run of digits starting at `i`.
pub open spec fn digit_run(s: Seq<char>, i: int) -> nat
    decreases s.len() - i,
{
    if i < 0 || i >= s.len() || !is_digit_char(s[i]) {
        0
    } else {
        1 + digit_run(s, i + 1)
    }
}

/// The numeric value of the digit run of length `n` starting at `i`.
pub open spec fn run_value(s: Seq<char>, i: int, n: int) -> int {
    digits_val(s.subrange(i, i + n))
}

/// A digit run stays within the stream.
pub proof fn lemma_digit_run_le(s: Seq<char>, i: int)
    requires
        0 <= i <= s.len(),
    ensures
        i + digit_run(s, i) <= s.len(),
        all_digits(s.subrange(i, i + digit_run(s, i))),
        i + digit_run(s, i) < s.len() ==> !is_digit_char(s[i + digit_run(s, i)]),
    decreases s.len() - i,
{
    if i < s.len() && is_digit_char(s[i]) {
        lemma_digit_run_le(s, i + 1);
        let n = digit_run(s, i) as int;
        assert forall|k: int| 0 <= k < n implies is_digit_char(
            #[trigger] s.subrange(i, i + n)[k],
        ) by {
            if k > 0 {
                assert(s.subrange(i + 1, i + n)[k - 1] == s.subrange(i, i + n)[k]);
            }
        }
    }
}

/// A complete `mul(a,b)` instruction starts at `i`: the literal header,
/// a non-empty digit run, a comma, a second run, and the closing
/// parenthesis.
pub open spec fn mul_at(s: Seq<char>, i: int) -> bool {
    let d1 = digit_run(s, i + 4) as int;
    let d2 = digit_run(s, i + 5 + d1) as int;
    &&& 0 <= i
    &&& i + 4 <= s.len()
    &&& s[i] == 'm' && s[i + 1] == 'u' && s[i + 2] == 'l' && s[i + 3] == '('
    &&& d1 >= 1
    &&& i + 4 + d1 < s.len() && s[i + 4 + d1] == ','
    &&& d2 >= 1
    &&& i + 5 + d1 + d2 < s.len() && s[i + 5 + d1 + d2] == ')'
}

/// The length of the instruction starting at `i`.
pub open spec fn mul_len(s: Seq<char>, i: int) -> int {
    6 + digit_run(s, i + 4) as int + digit_run(s, i + 5 + digit_run(s, i + 4)) as int
}

/// The first factor of the instruction at `i`.
pub open spec fn mul_lhs(s: Seq<char>, i: int) -> int {
    run_value(s, i + 4, digit_run(s, i + 4) as int)
}

/// The second factor of the instruction at `i`.
pub open spec fn mul_rhs(s: Seq<char>, i: int) -> int {
    run_value(s, i + 5 + digit_run(s, i + 4), digit_run(s, i + 5 + digit_run(s, i + 4)) as int)
}

/// The sum of the products of every instruction from `i` on, scanned
/// left to right without overlaps.
pub open spec fn mul_total(s: Seq<char>, i: int) -> int
    decreases s.len() - i,
    via mul_total_decreases
{
    if i < 0 || i >= s.len() {
        0
    } else if mul_at(s, i) {
        mul_lhs(s, i) * mul_rhs(s, i) + mul_total(s, i + mul_len(s, i))
    } else {
        mul_total(s, i + 1)
    }
}

#[via_fn]
proof fn mul_total_decreases(s: Seq<char>, i: int) {
    if 0 <= i < s.len() && mul_at(s, i) {
        lemma_digit_run_le(s, i + 4);
        lemma_digit_run_le(s, i + 5 + digit_run(s, i + 4));
    }
}

/// Every instruction from `i` on has factors and a running total that
/// fit in `i32`.
pub open spec fn muls_ok(s: Seq<char>, i: int) -> bool
    decreases s.len() - i,
    via muls_ok_decreases
{
    if i < 0 || i >= s.len() {
        true
    } else if mul_at(s, i) {
        &&& mul_lhs(s, i) <= i32::MAX
        &&& mul_rhs(s, i) <= i32::MAX
        &&& mul_lhs(s, i) * mul_rhs(s, i) <= i32::MAX
        &&& muls_ok(s, i + mul_len(s, i))
    } else {
        muls_ok(s, i + 1)
    }
}

#[via_fn]
proof fn muls_ok_decreases(s: Seq<char>, i: int) {
    if 0 <= i < s.len() && mul_at(s, i) {
        lemma_digit_run_le(s, i + 4);
        lemma_digit_run_le(s, i + 5 + digit_run(s, i + 4));
    }
}

/// Totals are sums of non-negative products.
proof fn lemma_mul_total_nonneg(s: Seq<char>, i: int)
    ensures
        mul_total(s, i) >= 0,
    decreases s.len() - i,
{
    if 0 <= i < s.len() {
        if mul_at(s, i) {
            proof_mul_parts_nonneg(s, i);
            lemma_digit_run_le(s, i + 4);
            lemma_digit_run_le(s, i + 5 + digit_run(s, i + 4));
            lemma_mul_total_nonneg(s, i + mul_len(s, i));
        } else {
            lemma_mul_total_nonneg(s, i + 1);
        }
    }
}

/// Both factors and their product are non-negative.
proof fn proof_mul_parts_nonneg(s: Seq<char>, i: int)
    requires
        0 <= i < s.len(),
        mul_at(s, i),
    ensures
        mul_lhs(s, i) >= 0,
        mul_rhs(s, i) >= 0,
        mul_lhs(s, i) * mul_rhs(s, i) >= 0,
{
    lemma_digit_run_le(s, i + 4);
    lemma_digit_run_le(s, i + 5 + digit_run(s, i + 4));
    lemma_digits_val_nonneg(s.subrange(i + 4, i + 4 + digit_run(s, i + 4)));
    let j = i + 5 + digit_run(s, i + 4);
    lemma_digits_val_nonneg(s.subrange(j, j + digit_run(s, j)));
    assert(mul_lhs(s, i) * mul_rhs(s, i) >= 0) by (nonlinear_arith)
        requires
            mul_lhs(s, i) >= 0,
            mul_rhs(s, i) >= 0,
    ;
}

/// The length of the digit run starting at `i`.
#[verifier::loop_isolation(false)]
fn run_length(v: &Vec<char>, i: usize) -> (n: usize)
    requires
        i <= v@.len(),
    ensures
        n == digit_run(v@, i as int),
        i + n <= v@.len(),
    decreases v@.len() - i,
{
    let mut j: usize = i;
    while j < v.len() && '0' <= v[j] && v[j] <= '9'
        invariant
            i <= j <= v@.len(),
            digit_run(v@, i as int) == digit_run(v@, j as int) + (j - i),
        decreases v@.len() - j,
    {
        j = j + 1;
    }
    j - i
}

/// Sums the products of every `mul(a,b)` instruction.
#[verifier::loop_isolation(false)]
pub fn interpret_chars(v: &Vec<char>) -> (total: i32)
    requires
        muls_ok(v@, 0),
        mul_total(v@, 0) <= i32::MAX,
    ensures
        total == mul_total(v@, 0),
{
    let ghost s = v@;
    let mut acc: i64 = 0;
    let mut i: usize = 0;
    proof {
        lemma_mul_total_nonneg(s, 0);
    }
    while i < v.len()
        invariant
            i <= s.len(),
            muls_ok(s, i as int),
            acc + mul_total(s, i as int) == mul_total(s, 0),
            0 <= acc <= i32::MAX,
        decreases s.len() - i,
    {
        let matched = v.len() >= 4 && i <= v.len() - 4 && v[i] == 'm' && v[i + 1] == 'u' && v[i
            + 2] == 'l' && v[i + 3] == '(';
        if matched {
            let d1 = run_length(v, i + 4);
            if d1 >= 1 && i + 4 + d1 < v.len() && v[i + 4 + d1] == ',' {
                let d2 = run_length(v, i + 5 + d1);
                if d2 >= 1 && i + 5 + d1 + d2 < v.len() && v[i + 5 + d1 + d2] == ')' {
                    proof {
                        assert(mul_at(s, i as int));
                        lemma_digit_run_le(s, i + 4);
                        lemma_digit_run_le(s, i + 5 + d1);
                        lemma_digits_val_nonneg(s.subrange(i + 4, i + 4 + d1));
                        lemma_digits_val_nonneg(s.subrange(i + 5 + d1, i + 5 + d1 + d2));
                        lemma_mul_total_nonneg(s, i + mul_len(s, i as int));
                        proof_mul_parts_nonneg(s, i as int);
                    }
                    let a = digits_to_u64(v, i + 4, i + 4 + d1);
                    let b = digits_to_u64(v, i + 5 + d1, i + 5 + d1 + d2);
                    acc = acc + (a as i64) * (b as i64);
                    i = i + 5 + d1 + d2 + 1;
                    continue ;
                }
            }
        }
        proof {
            assert(!mul_at(s, i as int)) by {
                if mul_at(s, i as int) {
                    lemma_digit_run_le(s, i + 4);
                }
            }
        }
        i = i + 1;
    }
    acc as i32
}

/// Sums the products of every `mul(a,b)` instruction of the stream.
pub fn interpret(instructions: &str) -> (total: i32)
    requires
        muls_ok(instructions@, 0),
        mul_total(instructions@, 0) <= i32::MAX,
    ensures
        total == mul_total(instructions@, 0),
{
    let v = chars_of(instructions);
    interpret_chars(&v)
}

/// The literal `don't()` starts at `i`.
pub open spec fn dont_at(s: Seq<char>, i: int) -> bool {
    &&& 0 <= i
    &&& i + 7 <= s.len()
    &&& s[i] == 'd' && s[i + 1] == 'o' && s[i + 2] == 'n' && s[i + 3] == '\'' && s[i + 4] == 't'
        && s[i + 5] == '(' && s[i + 6] == ')'
}

/// The literal `do()` starts at `i`.
pub open spec fn do_at(s: Seq<char>, i: int) -> bool {
    &&& 0 <= i
    &&& i + 4 <= s.len()
    &&& s[i] == 'd' && s[i + 1] == 'o' && s[i + 2] == '(' && s[i + 3] == ')'
}

/// The first position at or after `i` where `do()` starts, or the end.
pub open spec fn next_do(s: Seq<char>, i: int) -> int
    decreases s.len() - i,
{
    if i < 0 || i >= s.len() {
        s.len() as int
    } else if do_at(s, i) {
        i
    } else {
        next_do(s, i + 1)
    }
}

proof fn lemma_next_do_le(s: Seq<char>, i: int)
    requires
        0 <= i,
    ensures
        i <= next_do(s, i) || next_do(s, i) == s.len(),
        next_do(s, i) <= s.len(),
    decreases s.len() - i,
{
    if i < s.len() && !do_at(s, i) {
        lemma_next_do_le(s, i + 1);
    }
}

/// The stream with every `don't()`-to-`do()` span removed: a `don't()`
/// silences everything up to and including the nearest following
/// `do()`, or to the end of the stream.
pub open spec fn stripped(s: Seq<char>, i: int) -> Seq<char>
    decreases s.len() + 4 - i,
    via stripped_decreases
{
    if i < 0 || i >= s.len() {
        seq![]
    } else if dont_at(s, i) {
        let j = next_do(s, i + 7);
        if j >= s.len() {
            seq![]
        } else {
            stripped(s, j + 4)
        }
    } else {
        seq![s[i]] + stripped(s, i + 1)
    }
}

#[via_fn]
proof fn stripped_decreases(s: Seq<char>, i: int) {
    if 0 <= i < s.len() && dont_at(s, i) {
        lemma_next_do_le(s, i + 7);
    }
}

/// Removes every silenced span from the stream.
#[verifier::loop_isolation(false)]
pub fn strip_disabled(v: &Vec<char>) -> (out: Vec<char>)
    ensures
        out@ == stripped(v@, 0),
{
    let ghost s = v@;
    let mut out: Vec<char> = Vec::new();
    let mut i: usize = 0;
    proof {
        assert(out@ + stripped(s, 0) =~= stripped(s, 0));
    }
    while i < v.len()
        invariant
            i <= s.len(),
            stripped(s, 0) == out@ + stripped(s, i as int),
        decreases s.len() - i,
    {
        let silenced = v.len() >= 7 && i <= v.len() - 7 && v[i] == 'd' && v[i + 1] == 'o' && v[i
            + 2] == 'n' && v[i + 3] == '\'' && v[i + 4] == 't' && v[i + 5] == '(' && v[i + 6]
            == ')';
        if silenced {
            proof {
                assert(dont_at(s, i as int));
            }
            let mut j: usize = i + 7;
            while j < v.len() && !(v.len() >= 4 && j <= v.len() - 4 && v[j] == 'd' && v[j + 1]
                == 'o' && v[j + 2] == '(' && v[j + 3] == ')')
                invariant
                    i + 7 <= j <= s.len(),
                    next_do(s, i + 7) == next_do(s, j as int),
                decreases s.len() - j,
            {
                proof {
                    assert(!do_at(s, j as int));
                }
                j = j + 1;
            }
            if j >= v.len() {
                proof {
                    assert(next_do(s, j as int) == s.len());
                    assert(stripped(s, i as int) =~= Seq::<char>::empty());
                    assert(out@ + stripped(s, i as int) =~= out@);
                    assert(out@ =~= stripped(s, 0));
                }
                return out;
            }
            proof {
                assert(do_at(s, j as int));
                assert(next_do(s, j as int) == j);
                assert(stripped(s, i as int) == stripped(s, j + 4));
            }
            i = j + 4;
        } else {
            proof {
                assert(!dont_at(s, i as int));
                assert(stripped(s, i as int) == seq![s[i as int]] + stripped(s, i + 1));
            }
            let ghost out_prev = out@;
            out.push(v[i]);
            proof {
                assert(out_prev + (seq![s[i as int]] + stripped(s, i + 1)) =~= out@ + stripped(
                    s,
                    i + 1,
                ));
            }
            i = i + 1;
        }
    }
    proof {
        assert(stripped(s, i as int) =~= Seq::<char>::empty());
        assert(out@ =~= stripped(s, 0));
    }
    out
}

/// Sums the products of the instructions that are still enabled after
/// removing every silenced span.
pub fn conditional_interpret(instructions: &str) -> (total: i32)
    requires
        muls_ok(stripped(instructions@, 0), 0),
        mul_total(stripped(instructions@, 0), 0) <= i32::MAX,
    ensures
        total == mul_total(stripped(instructions@, 0), 0),
{
    let v = chars_of(instructions);
    let enabled = strip_disabled(&v);
    interpret_chars(&enabled)
}

} // verus!
