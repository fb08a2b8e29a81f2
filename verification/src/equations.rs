//! Calibration equations: a target value and a row of operands, checked
//! against a set of operators applied strictly left to right.  The search
//! prunes any branch whose intermediate value already exceeds the target.

use vstd::prelude::*;
use crate::stones::num_digits;
use crate::stones::pow10;
use crate::text::chars_of;
use crate::text::first_index_of;
use crate::text::int_value;
use crate::text::is_integer_literal;
use crate::text::lemma_first_index_of;
use crate::text::parse_u64_chars;
use crate::text::tokens_of;
use crate::text::views_of;
use crate::text::ws_tokens;

verus! {

/// An operator the calibration may combine operands with.
#[derive(PartialEq, Eq, Hash, Debug, Clone, Copy)]
pub enum Operator {
    Plus,
    Multiply,
    Concatenate,
}

/// The mathematical meaning of one operator application.  Concatenation
/// glues the right operand's digits after the left operand's.
pub open spec fn apply_op(op: Operator, lhs: int, rhs: int) -> int {
    match op {
        Operator::Plus => lhs + rhs,
        Operator::Multiply => lhs * rhs,
        Operator::Concatenate => lhs * pow10(num_digits(rhs as nat)) + rhs,
    }
}

/// The pruned left-to-right search, one chosen operator deep: apply `op`
/// to the accumulator and the next operand; a final operand must hit the
/// target exactly, and an intermediate value beyond the target ends the
/// branch.
pub open spec fn step_reaches(
    value: int,
    target: int,
    operands: Seq<u64>,
    op: Operator,
    operators: Seq<Operator>,
) -> bool
    decreases operands.len(), 0nat,
{
    if operands.len() == 0 {
        false
    } else {
        let nv = apply_op(op, value, operands[0] as int);
        if operands.len() == 1 {
            nv == target
        } else if nv > target {
            false
        } else {
            any_reaches(nv, target, operands.drop_first(), operators)
        }
    }
}

/// Some operator of the set makes the pruned search reach the target.
pub open spec fn any_reaches(
    value: int,
    target: int,
    operands: Seq<u64>,
    operators: Seq<Operator>,
) -> bool
    decreases operands.len(), 1nat,
{
    exists|k: int|
        0 <= k < operators.len() && step_reaches(
            value,
            target,
            operands,
            #[trigger] operators[k],
            operators,
        )
}

/// The whole equation check: seed the accumulator with the first operand
/// and search over the rest.  An equation with fewer than two operands
/// never reaches its target.
pub open spec fn reaches_target(target: u64, operands: Seq<u64>, operators: Seq<Operator>) -> bool {
    if operands.len() == 0 {
        false
    } else {
        any_reaches(operands[0] as int, target as int, operands.drop_first(), operators)
    }
}

/// A target value and its operands.
#[derive(PartialEq, Eq, Debug)]
pub struct CalibrationEquation {
    pub test_value: u64,
    pub operands: Vec<u64>,
}

impl CalibrationEquation {
    /// Whether some left-to-right assignment of the given operators that
    /// the pruned search explores evaluates the operands to the target.
    pub fn equals_target_with_operators(&self, operators: &[Operator]) -> (b: bool)
        ensures
            b == reaches_target(self.test_value, self.operands@, operators@),
    {
        if self.operands.len() == 0 {
            return false;
        }
        proof {
            assert(self.operands@.skip(1) =~= self.operands@.drop_first());
        }
        any_reaches_search(self.operands[0], self.test_value, &self.operands, 1, operators)
    }
}

impl Operator {
    /// Applies the operator to two operands.  The result must fit in
    /// `u64`; callers combine operands through the checked search, which
    /// never asks for more.
    pub fn apply(&self, lhs: u64, rhs: u64) -> (r: u64)
        requires
            apply_op(*self, lhs as int, rhs as int) <= u64::MAX,
        ensures
            r == apply_op(*self, lhs as int, rhs as int),
    {
        let checked = apply_checked(*self, lhs, rhs);
        match checked {
            Some(value) => value,
            None => {
                proof {
                    assert(false);
                }
                0
            },
        }
    }
}

/// Whether an operator applied to `value` and the operand at `idx` keeps
/// `u64` range; `Some` carries the combined value.
fn apply_checked(op: Operator, lhs: u64, rhs: u64) -> (r: Option<u64>)
    ensures
        (r is Some) <==> apply_op(op, lhs as int, rhs as int) <= u64::MAX,
        r is Some ==> r->0 == apply_op(op, lhs as int, rhs as int),
{
    match op {
        Operator::Plus => {
            if lhs > u64::MAX - rhs {
                proof {
                    assert(apply_op(op, lhs as int, rhs as int) > u64::MAX);
                }
                None
            } else {
                proof {
                    assert(apply_op(op, lhs as int, rhs as int) == lhs + rhs);
                }
                Some(lhs + rhs)
            }
        },
        Operator::Multiply => {
            if rhs == 0 {
                proof {
                    assert(lhs as int * (rhs as int) == 0) by (nonlinear_arith)
                        requires
                            rhs == 0,
                    ;
                }
                Some(0)
            } else {
                let q = u64::MAX / rhs;
                proof {
                    vstd::arithmetic::div_mod::lemma_fundamental_div_mod(
                        u64::MAX as int,
                        rhs as int,
                    );
                    vstd::arithmetic::div_mod::lemma_mod_pos_bound(u64::MAX as int, rhs as int);
                    if lhs <= q {
                        assert(lhs * rhs <= q * rhs) by (nonlinear_arith)
                            requires
                                lhs <= q,
                                rhs >= 0,
                        ;
                        assert(q * rhs == rhs * q) by (nonlinear_arith);
                    } else {
                        assert(lhs * rhs >= (q + 1) * rhs) by (nonlinear_arith)
                            requires
                                lhs >= q + 1,
                                rhs >= 0,
                        ;
                        assert((q + 1) * rhs == rhs * q + rhs) by (nonlinear_arith);
                    }
                }
                if lhs > q {
                    proof {
                        assert(apply_op(op, lhs as int, rhs as int) > u64::MAX);
                    }
                    None
                } else {
                    proof {
                        assert(lhs * rhs <= u64::MAX);
                    }
                    Some(lhs * rhs)
                }
            }
        },
        Operator::Concatenate => {
            let d = crate::stones::count_digits(rhs);
            let p = pow10_u128(d);
            proof {
                crate::stones::lemma_pow10_mono(0nat, num_digits(rhs as nat));
                vstd::arithmetic::div_mod::lemma_fundamental_div_mod(
                    u64::MAX as int,
                    p as int,
                );
                vstd::arithmetic::div_mod::lemma_mod_pos_bound(u64::MAX as int, p as int);
                let q = u64::MAX as int / p as int;
                if lhs <= q {
                    assert(lhs * (p as int) <= q * (p as int)) by (nonlinear_arith)
                        requires
                            lhs <= q,
                            p >= 1,
                    ;
                    assert(q * (p as int) == (p as int) * q) by (nonlinear_arith);
                } else {
                    assert(lhs * (p as int) >= (q + 1) * (p as int)) by (nonlinear_arith)
                        requires
                            lhs >= q + 1,
                            p >= 1,
                    ;
                    assert((q + 1) * (p as int) == (p as int) * q + p) by (nonlinear_arith);
                }
            }
            if (lhs as u128) > (u64::MAX as u128) / p {
                proof {
                    assert(apply_op(op, lhs as int, rhs as int) > u64::MAX);
                }
                None
            } else {
                let prod: u128 = (lhs as u128) * p;
                if prod > (u64::MAX as u128) - (rhs as u128) {
                    proof {
                        assert(apply_op(op, lhs as int, rhs as int) > u64::MAX);
                    }
                    None
                } else {
                    proof {
                        assert(apply_op(op, lhs as int, rhs as int) == prod + rhs);
                    }
                    Some((prod + rhs as u128) as u64)
                }
            }
        },
    }
}

/// Ten to the `k`th power, for exponents up to twenty.
#[verifier::loop_isolation(false)]
fn pow10_u128(k: u64) -> (r: u128)
    requires
        k <= 20,
    ensures
        r == pow10(k as nat),
        r <= 100_000_000_000_000_000_000u128,
{
    proof {
        crate::stones::lemma_pow10_values();
    }
    let mut r: u128 = 1;
    let mut j: u64 = 0;
    while j < k
        invariant
            j <= k,
            r == pow10(j as nat),
        decreases k - j,
    {
        proof {
            crate::stones::lemma_pow10_mono(j as nat + 1, 20nat);
        }
        r = r * 10;
        j = j + 1;
    }
    proof {
        crate::stones::lemma_pow10_mono(k as nat, 20nat);
    }
    r
}

/// The pruned search from `value` over the operands at `idx` and beyond.
#[verifier::loop_isolation(false)]
fn any_reaches_search(
    value: u64,
    target: u64,
    operands: &Vec<u64>,
    idx: usize,
    operators: &[Operator],
) -> (b: bool)
    requires
        1 <= idx <= operands@.len(),
    ensures
        b == any_reaches(value as int, target as int, operands@.skip(idx as int), operators@),
    decreases operands@.len() - idx,
{
    let ghost suffix = operands@.skip(idx as int);
    let mut k: usize = 0;
    while k < operators.len()
        invariant
            k <= operators@.len(),
            forall|j: int|
                0 <= j < k ==> !step_reaches(
                    value as int,
                    target as int,
                    suffix,
                    #[trigger] operators@[j],
                    operators@,
                ),
        decreases operators@.len() - k,
    {
        let op = *vstd::slice::slice_index_get(operators, k);
        if idx < operands.len() {
            proof {
                assert(suffix[0] == operands@[idx as int]);
            }
            let next = apply_checked(op, value, operands[idx]);
            match next {
                None => {
                    proof {
                        assert(!step_reaches(
                            value as int,
                            target as int,
                            suffix,
                            operators@[k as int],
                            operators@,
                        ));
                    }
                },
                Some(nv) => {
                    if idx + 1 == operands.len() {
                        if nv == target {
                            proof {
                                assert(suffix.len() == 1);
                                assert(step_reaches(
                                    value as int,
                                    target as int,
                                    suffix,
                                    operators@[k as int],
                                    operators@,
                                ));
                            }
                            return true;
                        }
                    } else if nv > target {
                        proof {
                            assert(!step_reaches(
                                value as int,
                                target as int,
                                suffix,
                                operators@[k as int],
                                operators@,
                            ));
                        }
                    } else {
                        proof {
                            assert(suffix.drop_first() =~= operands@.skip(idx + 1));
                        }
                        let sub = any_reaches_search(nv, target, operands, idx + 1, operators);
                        if sub {
                            proof {
                                assert(step_reaches(
                                    value as int,
                                    target as int,
                                    suffix,
                                    operators@[k as int],
                                    operators@,
                                ));
                            }
                            return true;
                        }
                    }
                },
            }
        } else {
            proof {
                assert(suffix.len() == 0);
            }
        }
        k = k + 1;
    }
    false
}

/// The text before the first colon of an equation line.
pub open spec fn line_target_text(s: Seq<char>) -> Seq<char> {
    s.take(first_index_of(s, ':') as int)
}

/// The text after the first colon of an equation line.
pub open spec fn line_operand_text(s: Seq<char>) -> Seq<char> {
    s.skip(first_index_of(s, ':') as int + 1)
}

/// The line has a colon, its target parses as a `u64`, and every operand
/// token parses as a `u64`.
pub open spec fn equation_line_ok(s: Seq<char>) -> bool {
    &&& first_index_of(s, ':') < s.len()
    &&& is_integer_literal(line_target_text(s))
    &&& line_target_text(s)[0] != '-'
    &&& int_value(line_target_text(s)) <= u64::MAX
    &&& forall|j: int|
        0 <= j < ws_tokens(line_operand_text(s)).len() ==> {
            &&& is_integer_literal(#[trigger] ws_tokens(line_operand_text(s))[j])
            &&& ws_tokens(line_operand_text(s))[j][0] != '-'
            &&& int_value(ws_tokens(line_operand_text(s))[j]) <= u64::MAX
        }
}

/// The operand values of an equation line.
pub open spec fn line_operands(s: Seq<char>) -> Seq<u64> {
    ws_tokens(line_operand_text(s)).map_values(|t: Seq<char>| (int_value(t) as u64))
}

/// Every line of the text is a well-formed equation line.
pub open spec fn equations_text_ok(s: Seq<char>) -> bool {
    forall|i: int|
        0 <= i < crate::text::split_lines(s).len() ==> equation_line_ok(
            #[trigger] crate::text::split_lines(s)[i],
        )
}

/// Parses one equation line, telling apart exactly the well-formed
/// ones.
#[verifier::loop_isolation(false)]
fn try_equation_line(line: &Vec<char>) -> (r: Option<CalibrationEquation>)
    ensures
        (r is Some) <==> equation_line_ok(line@),
        r is Some ==> {
            &&& (r->0).test_value == int_value(line_target_text(line@))
            &&& (r->0).operands@ == line_operands(line@)
        },
{
    proof {
        lemma_first_index_of(line@, ':');
    }
    let mut colon: usize = 0;
    while colon < line.len() && line[colon] != ':'
        invariant
            colon <= line@.len(),
            forall|j: int| 0 <= j < colon ==> line@[j] != ':',
        decreases line@.len() - colon,
    {
        colon = colon + 1;
    }
    proof {
        assert(colon == first_index_of(line@, ':')) by {
            let f = first_index_of(line@, ':') as int;
            if colon < f {
                assert(line@[colon as int] == ':');
            }
            if f < colon {
                assert(line@[f] == ':');
            }
        }
    }
    if colon == line.len() {
        return None;
    }
    let mut target_text: Vec<char> = Vec::new();
    let mut i: usize = 0;
    while i < colon
        invariant
            i <= colon <= line@.len(),
            target_text@ =~= line@.take(colon as int).take(i as int),
        decreases colon - i,
    {
        target_text.push(line[i]);
        proof {
            assert(target_text@ =~= line@.take(colon as int).take(i + 1));
        }
        i = i + 1;
    }
    proof {
        assert(target_text@ =~= line_target_text(line@));
    }
    let test_value = match crate::text::try_parse_u64_chars(&target_text) {
        Some(value) => value,
        None => {
            return None;
        },
    };
    let mut operand_text: Vec<char> = Vec::new();
    let mut i: usize = colon + 1;
    while i < line.len()
        invariant
            colon + 1 <= i <= line@.len() || i == colon + 1,
            operand_text@ =~= line@.skip(colon + 1).take(i - colon - 1),
        decreases line@.len() - i,
    {
        operand_text.push(line[i]);
        proof {
            assert(operand_text@ =~= line@.skip(colon + 1).take(i - colon));
        }
        i = i + 1;
    }
    proof {
        if colon + 1 <= line@.len() {
            assert(operand_text@ =~= line@.skip(colon + 1));
        } else {
            assert(line@.skip(colon + 1) =~= Seq::<char>::empty());
            assert(operand_text@ =~= line@.skip(colon + 1));
        }
        assert(operand_text@ =~= line_operand_text(line@));
    }
    let tokens = tokens_of(&operand_text);
    let ghost toks = ws_tokens(line_operand_text(line@));
    let mut operands: Vec<u64> = Vec::new();
    let mut j: usize = 0;
    while j < tokens.len()
        invariant
            j <= tokens.len(),
            views_of(tokens@) == toks,
            operands@ == toks.take(j as int).map_values(|t: Seq<char>| (int_value(t) as u64)),
            forall|k: int|
                0 <= k < j ==> {
                    &&& is_integer_literal(#[trigger] toks[k])
                    &&& toks[k][0] != '-'
                    &&& int_value(toks[k]) <= u64::MAX
                },
        decreases tokens.len() - j,
    {
        proof {
            assert(toks[j as int] == tokens@[j as int]@);
        }
        match crate::text::try_parse_u64_chars(&tokens[j]) {
            Some(value) => {
                operands.push(value);
                proof {
                    assert(operands@ =~= toks.take(j + 1).map_values(
                        |t: Seq<char>| (int_value(t) as u64),
                    ));
                }
            },
            None => {
                return None;
            },
        }
        j = j + 1;
    }
    proof {
        assert(toks.take(toks.len() as int) =~= toks);
        assert(line_operands(line@) =~= toks.map_values(|t: Seq<char>| (int_value(t) as u64)));
    }
    Some(CalibrationEquation { test_value, operands })
}

/// Parses a whole calibration text, one equation per line.  Returns
/// `None` exactly when some line is malformed.
#[verifier::loop_isolation(false)]
pub fn parse_equations(input: &str) -> (r: Option<Vec<CalibrationEquation>>)
    ensures
        (r is Some) <==> equations_text_ok(input@),
        r is Some ==> {
            let lines = crate::text::split_lines(input@);
            &&& (r->0)@.len() == lines.len()
            &&& forall|i: int|
                0 <= i < lines.len() ==> {
                    &&& (#[trigger] (r->0)@[i]).test_value == int_value(
                        line_target_text(lines[i]),
                    )
                    &&& (r->0)@[i].operands@ == line_operands(lines[i])
                }
        },
{
    let v = chars_of(input);
    let line_vecs = crate::text::split_newlines(&v);
    let ghost lines = crate::text::split_lines(input@);
    let mut equations: Vec<CalibrationEquation> = Vec::new();
    let mut i: usize = 0;
    while i < line_vecs.len()
        invariant
            i <= line_vecs.len(),
            views_of(line_vecs@) == lines,
            equations@.len() == i,
            forall|k: int| 0 <= k < i ==> equation_line_ok(#[trigger] lines[k]),
            forall|k: int|
                0 <= k < i ==> {
                    &&& (#[trigger] equations@[k]).test_value == int_value(
                        line_target_text(lines[k]),
                    )
                    &&& equations@[k].operands@ == line_operands(lines[k])
                },
        decreases line_vecs.len() - i,
    {
        proof {
            assert(lines[i as int] == line_vecs@[i as int]@);
        }
        match try_equation_line(&line_vecs[i]) {
            Some(equation) => {
                equations.push(equation);
            },
            None => {
                return None;
            },
        }
        i = i + 1;
    }
    Some(equations)
}

impl CalibrationEquation {
    /// Parses an equation line of the shape `target: operand operand ...`.
    /// The line must be well formed; [`parse_equations`] decides that for
    /// whole texts.
    #[verifier::loop_isolation(false)]
    pub fn from(value: &str) -> (e: CalibrationEquation)
        requires
            equation_line_ok(value@),
        ensures
            e.test_value == int_value(line_target_text(value@)),
            e.operands@ == line_operands(value@),
    {
        let v = chars_of(value);
        proof {
            lemma_first_index_of(value@, ':');
        }
        let mut colon: usize = 0;
        while colon < v.len() && v[colon] != ':'
            invariant
                colon <= v@.len(),
                forall|j: int| 0 <= j < colon ==> v@[j] != ':',
            decreases v@.len() - colon,
        {
            colon = colon + 1;
        }
        proof {
            assert(colon == first_index_of(value@, ':')) by {
                let f = first_index_of(value@, ':') as int;
                if colon < f {
                    assert(v@[colon as int] == ':');
                }
                if f < colon {
                    assert(v@[f] == ':');
                }
            }
        }
        let mut target_text: Vec<char> = Vec::new();
        let mut i: usize = 0;
        while i < colon
            invariant
                i <= colon <= v@.len(),
                target_text@ =~= v@.take(colon as int).take(i as int),
            decreases colon - i,
        {
            target_text.push(v[i]);
            proof {
                assert(target_text@ =~= v@.take(colon as int).take(i + 1));
            }
            i = i + 1;
        }
        proof {
            assert(target_text@ =~= line_target_text(value@));
        }
        let test_value = parse_u64_chars(&target_text);
        let mut operand_text: Vec<char> = Vec::new();
        let mut i: usize = colon + 1;
        while i < v.len()
            invariant
                colon + 1 <= i <= v@.len() || i == colon + 1,
                operand_text@ =~= v@.skip(colon + 1).take(i - colon - 1),
            decreases v@.len() - i,
        {
            operand_text.push(v[i]);
            proof {
                assert(operand_text@ =~= v@.skip(colon + 1).take(i - colon));
            }
            i = i + 1;
        }
        proof {
            if colon + 1 <= v@.len() {
                assert(operand_text@ =~= v@.skip(colon + 1));
            } else {
                assert(v@.skip(colon + 1) =~= Seq::<char>::empty());
                assert(operand_text@ =~= v@.skip(colon + 1));
            }
            assert(operand_text@ =~= line_operand_text(value@));
        }
        let tokens = tokens_of(&operand_text);
        let ghost toks = ws_tokens(line_operand_text(value@));
        let mut operands: Vec<u64> = Vec::new();
        let mut j: usize = 0;
        while j < tokens.len()
            invariant
                j <= tokens.len(),
                views_of(tokens@) == toks,
                operands@ == toks.take(j as int).map_values(|t: Seq<char>| (int_value(t) as u64)),
            decreases tokens.len() - j,
        {
            proof {
                assert(toks[j as int] == tokens@[j as int]@);
            }
            let value = parse_u64_chars(&tokens[j]);
            operands.push(value);
            proof {
                assert(operands@ =~= toks.take(j + 1).map_values(
                    |t: Seq<char>| (int_value(t) as u64),
                ));
            }
            j = j + 1;
        }
        proof {
            assert(toks.take(toks.len() as int) =~= toks);
            assert(line_operands(value@) =~= toks.map_values(|t: Seq<char>| (int_value(t) as u64)));
        }
        CalibrationEquation { test_value, operands }
    }
}

} // verus!
