//! Characters and decimal numbers: the shared ground for every parser in
//! this crate.
//!
//! All text handling goes through [`chars_of`], which turns a string slice
//! into an indexable vector of its characters.  The spec functions here give
//! the mathematical reading of a run of decimal digits, and
//! [`string_to_i32`] / [`string_to_u64`] are the verified counterparts of a
//! plain decimal parse.

use vstd::prelude::*;

verus! {

/// A decimal digit character.
pub open spec fn is_digit_char(c: char) -> bool {
    '0' <= c && c <= '9'
}

/// The numeric value of a single digit character.
pub open spec fn digit_val(c: char) -> int {
    c as int - '0' as int
}

/// Every character of `s` is a decimal digit.
pub open spec fn all_digits(s: Seq<char>) -> bool {
    forall|i: int| 0 <= i < s.len() ==> is_digit_char(#[trigger] s[i])
}

/// The value of a digit string, most significant digit first.
pub open spec fn digits_val(s: Seq<char>) -> int
    decreases s.len(),
{
    if s.len() == 0 {
        0
    } else {
        digits_val(s.drop_last()) * 10 + digit_val(s.last())
    }
}

/// The digits of an integer literal, after any leading sign.
pub open spec fn sign_body(s: Seq<char>) -> Seq<char> {
    if s.len() > 0 && (s[0] == '+' || s[0] == '-') {
        s.drop_first()
    } else {
        s
    }
}

/// `s` is an optionally signed, non-empty run of decimal digits.
pub open spec fn is_integer_literal(s: Seq<char>) -> bool {
    sign_body(s).len() > 0 && all_digits(sign_body(s))
}

/// The mathematical value of an integer literal.
pub open spec fn int_value(s: Seq<char>) -> int {
    if s.len() > 0 && s[0] == '-' {
        -digits_val(sign_body(s))
    } else {
        digits_val(sign_body(s))
    }
}

/// A digit string has a non-negative value.
pub proof fn lemma_digits_val_nonneg(s: Seq<char>)
    requires
        all_digits(s),
    ensures
        digits_val(s) >= 0,
    decreases s.len(),
{
    if s.len() > 0 {
        assert(all_digits(s.drop_last()));
        lemma_digits_val_nonneg(s.drop_last());
    }
}

/// Extending a digit string can only increase its value.
pub proof fn lemma_digits_val_prefix(s: Seq<char>, i: int)
    requires
        all_digits(s),
        0 <= i <= s.len(),
    ensures
        digits_val(s.take(i)) <= digits_val(s),
    decreases s.len() - i,
{
    if i < s.len() {
        assert(all_digits(s.take(i)));
        lemma_digits_val_nonneg(s.take(i));
        assert(s.take(i + 1).drop_last() =~= s.take(i));
        assert(s.take(i + 1).last() == s[i]);
        lemma_digits_val_prefix(s, i + 1);
    } else {
        assert(s.take(i) =~= s);
    }
}

/// A whitespace character, as the token splitters understand it.
pub open spec fn is_space(c: char) -> bool {
    c == ' ' || c == '\t' || c == '\r' || c == '\n'
}

/// The index of the first `sep` of `s`, or its length.
pub open spec fn sep_at(s: Seq<char>, sep: char) -> nat
    decreases s.len(),
{
    if s.len() == 0 {
        0
    } else if s[0] == sep {
        0
    } else {
        1 + sep_at(s.drop_first(), sep)
    }
}

/// The first separator comes no later than the end.
pub proof fn lemma_sep_at_le(s: Seq<char>, sep: char)
    ensures
        sep_at(s, sep) <= s.len(),
    decreases s.len(),
{
    if s.len() > 0 && s[0] != sep {
        lemma_sep_at_le(s.drop_first(), sep);
    }
}

/// `s`, split at every `sep`.  Pieces may be empty; a trailing separator
/// yields a final empty piece, exactly as `str::split` does.
pub open spec fn split_at_char(s: Seq<char>, sep: char) -> Seq<Seq<char>>
    decreases s.len(),
    via split_at_char_decreases
{
    let i = sep_at(s, sep) as int;
    if i >= s.len() {
        seq![s]
    } else {
        seq![s.take(i)] + split_at_char(s.skip(i + 1), sep)
    }
}

#[via_fn]
proof fn split_at_char_decreases(s: Seq<char>, sep: char) {
    lemma_sep_at_le(s, sep);
}

/// `s`, split at every newline.
pub open spec fn split_lines(s: Seq<char>) -> Seq<Seq<char>> {
    split_at_char(s, '\n')
}

/// The length of the leading run of non-whitespace characters of `s`.
pub open spec fn nonspace_run(s: Seq<char>) -> nat
    decreases s.len(),
{
    if s.len() == 0 {
        0
    } else if is_space(s[0]) {
        0
    } else {
        1 + nonspace_run(s.drop_first())
    }
}

/// The leading non-whitespace run ends no later than the end.
pub proof fn lemma_nonspace_run_le(s: Seq<char>)
    ensures
        nonspace_run(s) <= s.len(),
    decreases s.len(),
{
    if s.len() > 0 && !is_space(s[0]) {
        lemma_nonspace_run_le(s.drop_first());
    }
}

/// The whitespace-separated tokens of `s`: maximal runs of
/// non-whitespace characters, in order, with no empty tokens.
pub open spec fn ws_tokens(s: Seq<char>) -> Seq<Seq<char>>
    decreases s.len(),
    via ws_tokens_decreases
{
    if s.len() == 0 {
        seq![]
    } else if is_space(s[0]) {
        ws_tokens(s.drop_first())
    } else {
        let e = nonspace_run(s) as int;
        seq![s.take(e)] + ws_tokens(s.skip(e))
    }
}

#[via_fn]
proof fn ws_tokens_decreases(s: Seq<char>) {
    lemma_nonspace_run_le(s);
}

/// Prefixing a separator-free piece moves the first separator past it.
proof fn lemma_sep_at_concat(p: Seq<char>, rest: Seq<char>, sep: char)
    requires
        forall|i: int| 0 <= i < p.len() ==> p[i] != sep,
    ensures
        sep_at(p + rest, sep) == p.len() + sep_at(rest, sep),
    decreases p.len(),
{
    if p.len() == 0 {
        assert(p + rest =~= rest);
    } else {
        assert((p + rest).drop_first() =~= p.drop_first() + rest);
        lemma_sep_at_concat(p.drop_first(), rest, sep);
    }
}

/// Splitting a separator-free piece followed by a separator peels the
/// piece.
proof fn lemma_split_at_char_peel(p: Seq<char>, rest: Seq<char>, sep: char)
    requires
        forall|i: int| 0 <= i < p.len() ==> p[i] != sep,
    ensures
        split_at_char(p + seq![sep] + rest, sep) == seq![p] + split_at_char(rest, sep),
{
    let s = p + seq![sep] + rest;
    assert(s =~= p + (seq![sep] + rest));
    lemma_sep_at_concat(p, seq![sep] + rest, sep);
    assert(sep_at(seq![sep] + rest, sep) == 0);
    let i = sep_at(s, sep) as int;
    assert(i == p.len());
    assert(s.take(i) =~= p);
    assert(s.skip(i + 1) =~= rest);
}

/// A separator-free piece is a single piece.
proof fn lemma_split_at_char_single(p: Seq<char>, sep: char)
    requires
        forall|i: int| 0 <= i < p.len() ==> p[i] != sep,
    ensures
        split_at_char(p, sep) == seq![p],
{
    lemma_sep_at_concat(p, Seq::empty(), sep);
    assert(p + Seq::<char>::empty() =~= p);
    assert(sep_at(p, sep) == p.len());
}

/// Prefixing a non-whitespace piece extends the leading token run.
proof fn lemma_nonspace_run_concat(p: Seq<char>, rest: Seq<char>)
    requires
        forall|i: int| 0 <= i < p.len() ==> !is_space(#[trigger] p[i]),
    ensures
        nonspace_run(p + rest) == p.len() + nonspace_run(rest),
    decreases p.len(),
{
    if p.len() == 0 {
        assert(p + rest =~= rest);
    } else {
        assert((p + rest).drop_first() =~= p.drop_first() + rest);
        lemma_nonspace_run_concat(p.drop_first(), rest);
    }
}

/// Tokenizing a non-empty non-whitespace piece followed by whitespace
/// peels the piece.
proof fn lemma_ws_tokens_peel(p: Seq<char>, c: char, rest: Seq<char>)
    requires
        p.len() > 0,
        forall|i: int| 0 <= i < p.len() ==> !is_space(#[trigger] p[i]),
        is_space(c),
    ensures
        ws_tokens(p + seq![c] + rest) == seq![p] + ws_tokens(rest),
{
    let s = p + seq![c] + rest;
    assert(s =~= p + (seq![c] + rest));
    lemma_nonspace_run_concat(p, seq![c] + rest);
    assert(nonspace_run(seq![c] + rest) == 0);
    let e = nonspace_run(s) as int;
    assert(e == p.len());
    assert(!is_space(s[0]));
    assert(s.take(e) =~= p);
    assert(s.skip(e) =~= seq![c] + rest);
    assert(ws_tokens(seq![c] + rest) == ws_tokens(rest)) by {
        assert((seq![c] + rest).drop_first() =~= rest);
    }
}

/// A non-empty non-whitespace piece is a single token.
proof fn lemma_ws_tokens_single(p: Seq<char>)
    requires
        p.len() > 0,
        forall|i: int| 0 <= i < p.len() ==> !is_space(#[trigger] p[i]),
    ensures
        ws_tokens(p) == seq![p],
{
    lemma_nonspace_run_concat(p, Seq::empty());
    assert(p + Seq::<char>::empty() =~= p);
    assert(nonspace_run(p) == p.len());
    assert(!is_space(p[0]));
    assert(p.take(p.len() as int) =~= p);
    assert(p.skip(p.len() as int) =~= Seq::<char>::empty());
    assert(ws_tokens(p.skip(p.len() as int)) =~= Seq::<Seq<char>>::empty());
    assert(ws_tokens(p) =~= seq![p]);
}

/// The views of the elements of a sequence.
pub open spec fn views_of<T: View>(parts: Seq<T>) -> Seq<T::V> {
    parts.map_values(|p: T| p@)
}

/// Splits `v` at every occurrence of `sep`, keeping empty pieces.
pub fn split_char(v: &Vec<char>, sep: char) -> (parts: Vec<Vec<char>>)
    ensures
        views_of(parts@) == split_at_char(v@, sep),
{
    let mut parts: Vec<Vec<char>> = Vec::new();
    let mut cur: Vec<char> = Vec::new();
    let mut i: usize = 0;
    proof {
        assert(cur@ + v@.skip(0) =~= v@);
        assert(views_of(parts@) =~= Seq::<Seq<char>>::empty());
        assert(views_of(parts@) + split_at_char(v@, sep) =~= split_at_char(v@, sep));
    }
    while i < v.len()
        invariant
            i <= v@.len(),
            forall|j: int| 0 <= j < cur@.len() ==> cur@[j] != sep,
            split_at_char(v@, sep) == views_of(parts@) + split_at_char(
                cur@ + v@.skip(i as int),
                sep,
            ),
        decreases v@.len() - i,
    {
        let c = v[i];
        if c == sep {
            proof {
                assert(cur@ + v@.skip(i as int) =~= cur@ + seq![sep] + v@.skip(i + 1));
                lemma_split_at_char_peel(cur@, v@.skip(i + 1), sep);
            }
            let ghost parts_prev = parts@;
            let ghost piece = cur@;
            let done = cur;
            cur = Vec::new();
            parts.push(done);
            proof {
                let rest = split_at_char(v@.skip(i + 1), sep);
                assert(views_of(parts@) =~= views_of(parts_prev).push(piece));
                assert(views_of(parts@) + rest =~= views_of(parts_prev) + (seq![piece] + rest));
                assert(cur@ + v@.skip(i + 1) =~= v@.skip(i + 1));
            }
        } else {
            let ghost cur_prev = cur@;
            cur.push(c);
            proof {
                assert(cur_prev + v@.skip(i as int) =~= cur@ + v@.skip(i + 1));
            }
        }
        i = i + 1;
    }
    proof {
        assert(cur@ + v@.skip(i as int) =~= cur@);
        lemma_split_at_char_single(cur@, sep);
    }
    let ghost parts_prev = parts@;
    let ghost piece = cur@;
    parts.push(cur);
    proof {
        assert(views_of(parts@) =~= views_of(parts_prev).push(piece));
        assert(views_of(parts_prev) + seq![piece] =~= views_of(parts_prev).push(piece));
        assert(split_at_char(v@, sep) =~= views_of(parts@));
    }
    parts
}

/// Splits `v` at every newline, keeping empty pieces.
pub fn split_newlines(v: &Vec<char>) -> (parts: Vec<Vec<char>>)
    ensures
        views_of(parts@) == split_lines(v@),
{
    split_char(v, '\n')
}

/// The whitespace-separated tokens of `v`.
pub fn tokens_of(v: &Vec<char>) -> (parts: Vec<Vec<char>>)
    ensures
        views_of(parts@) == ws_tokens(v@),
{
    let mut parts: Vec<Vec<char>> = Vec::new();
    let mut cur: Vec<char> = Vec::new();
    let mut i: usize = 0;
    proof {
        assert(cur@ + v@.skip(0) =~= v@);
        assert(views_of(parts@) =~= Seq::<Seq<char>>::empty());
        assert(views_of(parts@) + ws_tokens(v@) =~= ws_tokens(v@));
    }
    while i < v.len()
        invariant
            i <= v@.len(),
            forall|j: int| 0 <= j < cur@.len() ==> !is_space(#[trigger] cur@[j]),
            ws_tokens(v@) == views_of(parts@) + ws_tokens(cur@ + v@.skip(i as int)),
        decreases v@.len() - i,
    {
        let c = v[i];
        let space = c == ' ' || c == '\t' || c == '\r' || c == '\n';
        if space {
            if cur.len() > 0 {
                proof {
                    assert(cur@ + v@.skip(i as int) =~= cur@ + seq![c] + v@.skip(i + 1));
                    lemma_ws_tokens_peel(cur@, c, v@.skip(i + 1));
                }
                let ghost parts_prev = parts@;
                let ghost piece = cur@;
                let done = cur;
                cur = Vec::new();
                parts.push(done);
                proof {
                    let rest = ws_tokens(v@.skip(i + 1));
                    assert(views_of(parts@) =~= views_of(parts_prev).push(piece));
                    assert(views_of(parts@) + rest =~= views_of(parts_prev) + (seq![piece]
                        + rest));
                    assert(cur@ + v@.skip(i + 1) =~= v@.skip(i + 1));
                }
            } else {
                proof {
                    assert(cur@ + v@.skip(i as int) =~= v@.skip(i as int));
                    assert(v@.skip(i as int).drop_first() =~= v@.skip(i + 1));
                    assert(cur@ + v@.skip(i + 1) =~= v@.skip(i + 1));
                }
            }
        } else {
            let ghost cur_prev = cur@;
            cur.push(c);
            proof {
                assert(cur_prev + v@.skip(i as int) =~= cur@ + v@.skip(i + 1));
            }
        }
        i = i + 1;
    }
    if cur.len() > 0 {
        proof {
            assert(cur@ + v@.skip(i as int) =~= cur@);
            lemma_ws_tokens_single(cur@);
        }
        let ghost parts_prev = parts@;
        let ghost piece = cur@;
        parts.push(cur);
        proof {
            assert(views_of(parts@) =~= views_of(parts_prev).push(piece));
            assert(views_of(parts_prev) + seq![piece] =~= views_of(parts_prev).push(piece));
            assert(ws_tokens(v@) =~= views_of(parts@));
        }
    } else {
        proof {
            assert(cur@ + v@.skip(i as int) =~= Seq::<char>::empty());
            assert(views_of(parts@) + ws_tokens(Seq::<char>::empty()) =~= views_of(parts@));
            assert(ws_tokens(v@) =~= views_of(parts@));
        }
    }
    parts
}

/// The index of the first occurrence of `c` in `s`, or the length.
pub open spec fn first_index_of(s: Seq<char>, c: char) -> nat
    decreases s.len(),
{
    if s.len() == 0 {
        0
    } else if s[0] == c {
        0
    } else {
        1 + first_index_of(s.drop_first(), c)
    }
}

/// The first occurrence comes no later than the end, no occurrence
/// comes before it, and it holds `c` when it is in range.
pub proof fn lemma_first_index_of(s: Seq<char>, c: char)
    ensures
        first_index_of(s, c) <= s.len(),
        forall|j: int| 0 <= j < first_index_of(s, c) ==> s[j] != c,
        first_index_of(s, c) < s.len() ==> s[first_index_of(s, c) as int] == c,
    decreases s.len(),
{
    if s.len() > 0 && s[0] != c {
        lemma_first_index_of(s.drop_first(), c);
        assert forall|j: int| 0 <= j < first_index_of(s, c) implies s[j] != c by {
            if j > 0 {
                assert(s.drop_first()[j - 1] == s[j]);
            }
        }
    }
}

/// A fresh vector with the same contents.
pub fn copy_vec<T: Copy>(v: &Vec<T>) -> (r: Vec<T>)
    ensures
        r@ == v@,
{
    let mut r: Vec<T> = Vec::new();
    let mut i: usize = 0;
    while i < v.len()
        invariant
            i <= v@.len(),
            r@ =~= v@.take(i as int),
        decreases v@.len() - i,
    {
        r.push(v[i]);
        proof {
            assert(r@ =~= v@.take(i + 1));
        }
        i = i + 1;
    }
    proof {
        assert(v@.take(v@.len() as int) =~= v@);
    }
    r
}

/// The characters of a string slice, as an indexable vector.
pub fn chars_of(s: &str) -> (v: Vec<char>)
    ensures
        v@ == s@,
{
    let mut v: Vec<char> = Vec::new();
    for c in it: s.chars()
        invariant
            v@ =~= it.seq().take(it.index() as int),
            it.seq() == s@,
    {
        v.push(c);
    }
    proof {
        assert(v@ =~= s@);
    }
    v
}

/// The value of the digit run `v[from..to]`, accumulated left to right.
pub fn digits_to_u64(v: &Vec<char>, from: usize, to: usize) -> (r: u64)
    requires
        0 <= from <= to <= v@.len(),
        all_digits(v@.subrange(from as int, to as int)),
        digits_val(v@.subrange(from as int, to as int)) <= u64::MAX,
    ensures
        r == digits_val(v@.subrange(from as int, to as int)),
{
    let ghost whole = v@.subrange(from as int, to as int);
    let mut acc: u64 = 0;
    let mut i: usize = from;
    while i < to
        invariant
            from <= i <= to <= v@.len(),
            whole == v@.subrange(from as int, to as int),
            all_digits(whole),
            digits_val(whole) <= u64::MAX,
            acc == digits_val(whole.take(i - from)),
        decreases to - i,
    {
        proof {
            lemma_digits_val_prefix(whole, i + 1 - from);
            lemma_digits_val_nonneg(whole.take(i + 1 - from));
            assert(whole.take(i + 1 - from).drop_last() =~= whole.take(i - from));
            assert(whole.take(i + 1 - from).last() == whole[i - from]);
            assert(whole[i - from] == v@[i as int]);
        }
        let c = v[i];
        let d: u64 = (c as u32 as u64) - ('0' as u32 as u64);
        acc = acc * 10 + d;
        i = i + 1;
    }
    proof {
        assert(whole.take(to - from) =~= whole);
    }
    acc
}

/// Parses a vector of characters as an `i32` integer literal.
pub fn parse_i32_chars(v: &Vec<char>) -> (r: i32)
    requires
        is_integer_literal(v@),
        i32::MIN <= int_value(v@) <= i32::MAX,
    ensures
        r == int_value(v@),
{
    let negative = v[0] == '-';
    let from: usize = if v[0] == '-' || v[0] == '+' {
        1
    } else {
        0
    };
    let ghost body = sign_body(v@);
    proof {
        assert(body =~= v@.subrange(from as int, v@.len() as int));
        lemma_digits_val_nonneg(body);
    }
    let magnitude = digits_to_u64(v, from, v.len());
    if negative {
        proof {
            assert(digits_val(body) <= 0x8000_0000);
        }
        (-(magnitude as i64)) as i32
    } else {
        magnitude as i32
    }
}

/// Parses a vector of characters as a `u64` integer literal.
pub fn parse_u64_chars(v: &Vec<char>) -> (r: u64)
    requires
        is_integer_literal(v@),
        v@[0] != '-',
        int_value(v@) <= u64::MAX,
    ensures
        r == int_value(v@),
{
    let from: usize = if v[0] == '+' {
        1
    } else {
        0
    };
    let ghost body = sign_body(v@);
    proof {
        assert(body =~= v@.subrange(from as int, v@.len() as int));
    }
    digits_to_u64(v, from, v.len())
}

/// Parses a vector of characters as an `i32`, telling apart exactly the
/// integer literals whose value fits.
#[verifier::loop_isolation(false)]
pub fn try_parse_i32_chars(v: &Vec<char>) -> (r: Option<i32>)
    ensures
        (r is Some) <==> (is_integer_literal(v@) && i32::MIN <= int_value(v@) <= i32::MAX),
        r is Some ==> r->0 == int_value(v@),
{
    let n = v.len();
    let negative = n > 0 && v[0] == '-';
    let from: usize = if n > 0 && (v[0] == '-' || v[0] == '+') {
        1
    } else {
        0
    };
    let ghost body = sign_body(v@);
    proof {
        assert(body =~= v@.subrange(from as int, n as int));
    }
    if from >= n {
        return None;
    }
    let mut j: usize = from;
    while j < n
        invariant
            from <= j <= n,
            n == v@.len(),
            body == v@.subrange(from as int, n as int),
            forall|k: int| 0 <= k < j - from ==> is_digit_char(#[trigger] body[k]),
        decreases n - j,
    {
        let c = v[j];
        if !('0' <= c && c <= '9') {
            proof {
                assert(body[j - from] == v@[j as int]);
                assert(!is_digit_char(body[j - from]));
                assert(!all_digits(body));
                assert(!is_integer_literal(v@));
            }
            return None;
        }
        proof {
            assert(body[j - from] == v@[j as int]);
        }
        j = j + 1;
    }
    proof {
        assert(all_digits(body));
        lemma_digits_val_nonneg(body);
    }
    let mut acc: u64 = 0;
    let mut i: usize = from;
    while i < n
        invariant
            from <= i <= n,
            n == v@.len(),
            body == v@.subrange(from as int, n as int),
            all_digits(body),
            acc == digits_val(body.take(i - from)),
            acc <= 0x8000_0000,
        decreases n - i,
    {
        proof {
            lemma_digits_val_nonneg(body.take(i - from));
            assert(body.take(i + 1 - from).drop_last() =~= body.take(i - from));
            assert(body.take(i + 1 - from).last() == body[i - from]);
            assert(body[i - from] == v@[i as int]);
        }
        let c = v[i];
        let d: u64 = (c as u32 as u64) - ('0' as u32 as u64);
        acc = acc * 10 + d;
        if acc > 0x8000_0000 {
            proof {
                lemma_digits_val_prefix(body, i + 1 - from);
                assert(digits_val(body) > 0x8000_0000);
                assert(int_value(v@) > i32::MAX || int_value(v@) < i32::MIN);
            }
            return None;
        }
        i = i + 1;
    }
    proof {
        assert(body.take(n - from) =~= body);
    }
    if negative {
        Some((-(acc as i64)) as i32)
    } else {
        if acc > 0x7FFF_FFFF {
            return None;
        }
        Some(acc as i32)
    }
}

/// Parses a vector of characters as a `u64`, telling apart exactly the
/// unsigned integer literals whose value fits.
#[verifier::loop_isolation(false)]
pub fn try_parse_u64_chars(v: &Vec<char>) -> (r: Option<u64>)
    ensures
        (r is Some) <==> (is_integer_literal(v@) && v@[0] != '-' && int_value(v@) <= u64::MAX),
        r is Some ==> r->0 == int_value(v@),
{
    let n = v.len();
    if n > 0 && v[0] == '-' {
        return None;
    }
    let from: usize = if n > 0 && v[0] == '+' {
        1
    } else {
        0
    };
    let ghost body = sign_body(v@);
    proof {
        assert(body =~= v@.subrange(from as int, n as int));
    }
    if from >= n {
        return None;
    }
    let mut j: usize = from;
    while j < n
        invariant
            from <= j <= n,
            forall|k: int| 0 <= k < j - from ==> is_digit_char(#[trigger] body[k]),
        decreases n - j,
    {
        let c = v[j];
        if !('0' <= c && c <= '9') {
            proof {
                assert(body[j - from] == v@[j as int]);
                assert(!all_digits(body));
            }
            return None;
        }
        proof {
            assert(body[j - from] == v@[j as int]);
        }
        j = j + 1;
    }
    proof {
        assert(all_digits(body));
        lemma_digits_val_nonneg(body);
    }
    let mut acc: u64 = 0;
    let mut i: usize = from;
    while i < n
        invariant
            from <= i <= n,
            acc == digits_val(body.take(i - from)),
        decreases n - i,
    {
        proof {
            lemma_digits_val_nonneg(body.take(i - from));
            assert(body.take(i + 1 - from).drop_last() =~= body.take(i - from));
            assert(body.take(i + 1 - from).last() == body[i - from]);
            assert(body[i - from] == v@[i as int]);
        }
        let c = v[i];
        let d: u64 = (c as u32 as u64) - ('0' as u32 as u64);
        if acc > (u64::MAX - d) / 10 {
            proof {
                let q = (u64::MAX - d) as int / 10;
                vstd::arithmetic::div_mod::lemma_fundamental_div_mod((u64::MAX - d) as int, 10);
                assert(acc * 10 >= (q + 1) * 10) by (nonlinear_arith)
                    requires
                        acc >= q + 1,
                ;
                assert(digits_val(body.take(i + 1 - from)) > u64::MAX);
                lemma_digits_val_prefix(body, i + 1 - from);
            }
            return None;
        }
        proof {
            let q = (u64::MAX - d) as int / 10;
            vstd::arithmetic::div_mod::lemma_fundamental_div_mod((u64::MAX - d) as int, 10);
            assert(acc * 10 <= q * 10) by (nonlinear_arith)
                requires
                    acc <= q,
            ;
        }
        acc = acc * 10 + d;
        i = i + 1;
    }
    proof {
        assert(body.take(n - from) =~= body);
    }
    Some(acc)
}

/// Parses a decimal string as an `i32`.  The input must be an integer
/// literal whose value fits; rejecting anything else is the caller's
/// duty, which [`try_parse_i32_chars`] decides for them.
pub fn string_to_i32(string: &str) -> (r: i32)
    requires
        is_integer_literal(string@),
        i32::MIN <= int_value(string@) <= i32::MAX,
    ensures
        r == int_value(string@),
{
    let v = chars_of(string);
    parse_i32_chars(&v)
}

/// Parses a decimal string as a `u64`.  The input must be an unsigned
/// (or `+`-signed) integer literal whose value fits; rejecting anything
/// else is the caller's duty, which [`try_parse_u64_chars`] decides.
pub fn string_to_u64(string: &str) -> (r: u64)
    requires
        is_integer_literal(string@),
        string@[0] != '-',
        int_value(string@) <= u64::MAX,
    ensures
        r == int_value(string@),
{
    let v = chars_of(string);
    parse_u64_chars(&v)
}

} // verus!
