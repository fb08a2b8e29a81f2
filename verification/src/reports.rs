//! Level reports: a report is safe when its adjacent levels all descend
//! by one to three, or all ascend by one to three.  The dampened variant
//! tolerates the removal of any single level.

use vstd::prelude::*;
use crate::text::int_value;
use crate::text::is_integer_literal;
use crate::text::split_lines;
use crate::text::try_parse_i32_chars;
use crate::text::views_of;
use crate::text::ws_tokens;
use crate::text::chars_of;
use crate::text::tokens_of;
use crate::text::split_newlines;

verus! {

/// Adjacent levels all descend by 1 to 3, or all ascend by 1 to 3.
pub open spec fn report_safe(r: Seq<i32>) -> bool {
    ||| forall|i: int| 0 <= i < r.len() - 1 ==> 1 <= #[trigger] r[i] - r[i + 1] <= 3
    ||| forall|i: int| 0 <= i < r.len() - 1 ==> -3 <= #[trigger] r[i] - r[i + 1] <= -1
}

/// Some single level can be removed to leave a safe report.
pub open spec fn report_safe_dampened(r: Seq<i32>) -> bool {
    exists|k: int| 0 <= k < r.len() && report_safe(r.remove(k))
}

/// How many of the reports are safe.
pub open spec fn safe_count(rs: Seq<Vec<i32>>) -> int
    decreases rs.len(),
{
    if rs.len() == 0 {
        0
    } else {
        safe_count(rs.drop_last()) + if report_safe(rs.last()@) {
            1int
        } else {
            0int
        }
    }
}

/// How many of the reports are safe after dampening.
pub open spec fn safe_dampened_count(rs: Seq<Vec<i32>>) -> int
    decreases rs.len(),
{
    if rs.len() == 0 {
        0
    } else {
        safe_dampened_count(rs.drop_last()) + if report_safe_dampened(rs.last()@) {
            1int
        } else {
            0int
        }
    }
}

/// Decides safety by the sliding-window differences of adjacent levels.
#[verifier::loop_isolation(false)]
pub fn is_safe(report: &Vec<i32>) -> (b: bool)
    ensures
        b == report_safe(report@),
{
    let mut descending = true;
    let mut ascending = true;
    let mut i: usize = 0;
    while i + 1 < report.len()
        invariant
            report.len() == 0 ==> i == 0,
            report.len() > 0 ==> i <= report.len() - 1,
            descending == forall|j: int| 0 <= j < i ==> 1 <= #[trigger] report@[j] - report@[j
                + 1] <= 3,
            ascending == forall|j: int| 0 <= j < i ==> -3 <= #[trigger] report@[j] - report@[j
                + 1] <= -1,
        decreases report.len() - i,
    {
        let d: i64 = report[i] as i64 - report[i + 1] as i64;
        if !(1 <= d && d <= 3) {
            descending = false;
        }
        if !(-3 <= d && d <= -1) {
            ascending = false;
        }
        i = i + 1;
    }
    descending || ascending
}

/// How many reports are safe.
#[verifier::loop_isolation(false)]
pub fn count_safe_reports(reports: &Vec<Vec<i32>>) -> (count: usize)
    ensures
        count == safe_count(reports@),
{
    let mut count: usize = 0;
    let mut i: usize = 0;
    while i < reports.len()
        invariant
            i <= reports.len(),
            count <= i,
            count == safe_count(reports@.take(i as int)),
        decreases reports.len() - i,
    {
        proof {
            assert(reports@.take(i + 1).drop_last() =~= reports@.take(i as int));
        }
        if is_safe(&reports[i]) {
            count = count + 1;
        }
        i = i + 1;
    }
    proof {
        assert(reports@.take(reports@.len() as int) =~= reports@);
    }
    count
}

/// Decides dampened safety by re-checking the report with each single
/// level removed.
#[verifier::loop_isolation(false)]
pub fn is_safe_dampened(report: &Vec<i32>) -> (b: bool)
    ensures
        b == report_safe_dampened(report@),
{
    let mut k: usize = 0;
    while k < report.len()
        invariant
            k <= report.len(),
            forall|j: int| 0 <= j < k ==> !report_safe(report@.remove(j)),
        decreases report.len() - k,
    {
        let mut shortened: Vec<i32> = Vec::new();
        let mut j: usize = 0;
        while j < report.len()
            invariant
                j <= report.len(),
                k < report.len(),
                j <= k ==> shortened@ == report@.take(j as int),
                j > k ==> shortened@ == report@.take(j as int).remove(k as int),
            decreases report.len() - j,
        {
            if j != k {
                shortened.push(report[j]);
                proof {
                    if j < k {
                        assert(shortened@ =~= report@.take(j + 1));
                    } else {
                        assert(shortened@ =~= report@.take(j + 1).remove(k as int));
                    }
                }
            } else {
                proof {
                    assert(report@.take(k + 1).remove(k as int) =~= report@.take(k as int));
                }
            }
            j = j + 1;
        }
        proof {
            assert(report@.take(report@.len() as int) =~= report@);
        }
        if is_safe(&shortened) {
            return true;
        }
        k = k + 1;
    }
    false
}

/// How many reports are safe after dampening.
#[verifier::loop_isolation(false)]
pub fn count_safe_reports_dampened(reports: &Vec<Vec<i32>>) -> (count: usize)
    ensures
        count == safe_dampened_count(reports@),
{
    let mut count: usize = 0;
    let mut i: usize = 0;
    while i < reports.len()
        invariant
            i <= reports.len(),
            count <= i,
            count == safe_dampened_count(reports@.take(i as int)),
        decreases reports.len() - i,
    {
        proof {
            assert(reports@.take(i + 1).drop_last() =~= reports@.take(i as int));
        }
        if is_safe_dampened(&reports[i]) {
            count = count + 1;
        }
        i = i + 1;
    }
    proof {
        assert(reports@.take(reports@.len() as int) =~= reports@);
    }
    count
}

/// The levels of one line of input.
pub open spec fn line_levels(line: Seq<char>) -> Seq<i32> {
    ws_tokens(line).map_values(|t: Seq<char>| (int_value(t) as i32))
}

/// Every token of the line is an `i32` integer literal.
pub open spec fn line_levels_ok(line: Seq<char>) -> bool {
    forall|j: int|
        0 <= j < ws_tokens(line).len() ==> {
            &&& is_integer_literal(#[trigger] ws_tokens(line)[j])
            &&& i32::MIN <= int_value(ws_tokens(line)[j]) <= i32::MAX
        }
}

/// The non-empty reports among the given lines.
pub open spec fn reports_of(lines: Seq<Seq<char>>) -> Seq<Seq<i32>>
    decreases lines.len(),
{
    if lines.len() == 0 {
        seq![]
    } else {
        let rest = reports_of(lines.drop_last());
        let vals = line_levels(lines.last());
        if vals.len() > 0 {
            rest.push(vals)
        } else {
            rest
        }
    }
}

/// Every token of every line is an `i32` integer literal.
pub open spec fn report_text_ok(s: Seq<char>) -> bool {
    forall|i: int|
        0 <= i < split_lines(s).len() ==> line_levels_ok(#[trigger] split_lines(s)[i])
}

/// Parses one line of levels.
#[verifier::loop_isolation(false)]
pub fn parse_level_line(line: &Vec<char>) -> (r: Option<Vec<i32>>)
    ensures
        (r is Some) <==> line_levels_ok(line@),
        r is Some ==> (r->0)@ == line_levels(line@),
{
    let tokens = tokens_of(line);
    let ghost toks = ws_tokens(line@);
    let mut vals: Vec<i32> = Vec::new();
    let mut j: usize = 0;
    while j < tokens.len()
        invariant
            j <= tokens.len(),
            views_of(tokens@) == toks,
            vals@ == toks.take(j as int).map_values(|t: Seq<char>| (int_value(t) as i32)),
            forall|k: int|
                0 <= k < j ==> {
                    &&& is_integer_literal(#[trigger] toks[k])
                    &&& i32::MIN <= int_value(toks[k]) <= i32::MAX
                },
        decreases tokens.len() - j,
    {
        proof {
            assert(toks[j as int] == tokens@[j as int]@);
        }
        let parsed = try_parse_i32_chars(&tokens[j]);
        match parsed {
            Some(value) => {
                vals.push(value);
                proof {
                    assert(vals@ =~= toks.take(j + 1).map_values(
                        |t: Seq<char>| (int_value(t) as i32),
                    ));
                }
            },
            None => {
                return None;
            },
        }
        j = j + 1;
    }
    proof {
        assert(toks.take(toks.len() as int) =~= toks);
        assert(line_levels(line@) =~= toks.map_values(|t: Seq<char>| (int_value(t) as i32)));
    }
    Some(vals)
}

/// Parses a whole report text: one report per line, levels separated by
/// whitespace, empty lines dropped.  Returns `None` exactly when some
/// token is not an `i32` integer literal.
#[verifier::loop_isolation(false)]
pub fn parse_reports(input: &str) -> (r: Option<Vec<Vec<i32>>>)
    ensures
        (r is Some) <==> report_text_ok(input@),
        r is Some ==> views_of((r->0)@) == reports_of(split_lines(input@)),
{
    let v = chars_of(input);
    let lines = split_newlines(&v);
    let ghost ls = split_lines(input@);
    let mut reports: Vec<Vec<i32>> = Vec::new();
    let mut i: usize = 0;
    while i < lines.len()
        invariant
            i <= lines.len(),
            views_of(lines@) == ls,
            views_of(reports@) == reports_of(ls.take(i as int)),
            forall|k: int| 0 <= k < i ==> line_levels_ok(#[trigger] ls[k]),
        decreases lines.len() - i,
    {
        proof {
            assert(ls[i as int] == lines@[i as int]@);
            assert(ls.take(i + 1).drop_last() =~= ls.take(i as int));
        }
        let parsed = parse_level_line(&lines[i]);
        match parsed {
            Some(vals) => {
                if vals.len() > 0 {
                    let ghost vals_view = vals@;
                    reports.push(vals);
                    proof {
                        assert(views_of(reports@) =~= views_of(reports@.drop_last()).push(
                            vals_view,
                        ));
                        assert(views_of(reports@) =~= reports_of(ls.take(i + 1)));
                    }
                } else {
                    proof {
                        assert(views_of(reports@) =~= reports_of(ls.take(i + 1)));
                    }
                }
            },
            None => {
                return None;
            },
        }
        i = i + 1;
    }
    proof {
        assert(ls.take(ls.len() as int) =~= ls);
    }
    Some(reports)
}

} // verus!
