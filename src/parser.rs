//! The pipeline grammar:
//!
//! ```text
//! expr := spaces term (spaces '|' spaces term)* spaces
//! term := identifier '(' spaces args? ')' | identifier
//! args := number (',' number)*
//! ```
//!
//! Every function here reads a character sequence from a position and is
//! specified by a spec function over `Seq<char>` of the same shape.
use vstd::prelude::*;
use crate::decimal::{Decimal, DecimalView, digits_ok};
use crate::expr::{CalcError, Expr, Term, TermView, decimals_view};

verus! {

/// The characters with the Unicode `White_Space` property, which
/// `char::is_whitespace` tests for.
pub open spec fn whitespace(c: char) -> bool {
    ('\t' <= c <= '\r') || c == ' ' || c == '\u{85}' || c == '\u{a0}' || c == '\u{1680}' || (
    '\u{2000}' <= c <= '\u{200a}') || c == '\u{2028}' || c == '\u{2029}' || c == '\u{202f}'
        || c == '\u{205f}' || c == '\u{3000}'
}

/// What `char::is_alphabetic` says of a character beyond ASCII.
pub uninterp spec fn non_ascii_alphabetic(c: char) -> bool;

/// What `char::is_alphanumeric` says of a character beyond ASCII.
pub uninterp spec fn non_ascii_alphanumeric(c: char) -> bool;

pub open spec fn ascii_letter(c: char) -> bool {
    'a' <= c <= 'z' || 'A' <= c <= 'Z'
}

/// The Unicode `Alphabetic` property: among ASCII characters, the letters.
pub open spec fn alphabetic(c: char) -> bool {
    if c <= '\x7f' {
        ascii_letter(c)
    } else {
        non_ascii_alphabetic(c)
    }
}

/// Alphabetic or numeric: among ASCII characters, the letters and digits.
pub open spec fn alphanumeric(c: char) -> bool {
    if c <= '\x7f' {
        ascii_letter(c) || '0' <= c <= '9'
    } else {
        non_ascii_alphanumeric(c)
    }
}

/// Whether `c` is whitespace, as `char::is_whitespace` decides it.
fn is_whitespace(c: char) -> (r: bool)
    ensures
        r == whitespace(c),
{
    ('\t' <= c && c <= '\r') || c == ' ' || c == '\u{85}' || c == '\u{a0}' || c == '\u{1680}'
        || ('\u{2000}' <= c && c <= '\u{200a}') || c == '\u{2028}' || c == '\u{2029}' || c
        == '\u{202f}' || c == '\u{205f}' || c == '\u{3000}'
}

/// Relies on `char::is_alphabetic`: the Unicode `Alphabetic` property, which
/// among ASCII characters holds of the letters alone.
#[verifier::external_body]
fn is_alphabetic(c: char) -> (r: bool)
    ensures
        r == alphabetic(c),
        c > '\x7f' ==> r == non_ascii_alphabetic(c),
{
    c.is_alphabetic()
}

/// Relies on `char::is_alphanumeric`: alphabetic or numeric, which among
/// ASCII characters holds of the letters and digits alone.
#[verifier::external_body]
fn is_alphanumeric(c: char) -> (r: bool)
    ensures
        r == alphanumeric(c),
        c > '\x7f' ==> r == non_ascii_alphanumeric(c),
{
    c.is_alphanumeric()
}

/// Relies on `str::chars` (collected): the characters of `s` in order.
#[verifier::external_body]
pub(crate) fn chars_of(s: &str) -> (r: Vec<char>)
    ensures
        r@ == s@,
{
    s.chars().collect()
}

/// Relies on `String: FromIterator<&char>`: the characters `s[start..end]` as a string.
#[verifier::external_body]
fn string_of(s: &Vec<char>, start: usize, end: usize) -> (r: String)
    requires
        start <= end <= s@.len(),
    ensures
        r@ == s@.subrange(start as int, end as int),
{
    s[start..end].iter().collect()
}

pub open spec fn is_digit(c: char) -> bool {
    '0' <= c <= '9'
}

pub open spec fn is_head(c: char) -> bool {
    alphabetic(c) || c == '_' || c == '#' || c == '@'
}

pub open spec fn is_tail(c: char) -> bool {
    alphanumeric(c) || is_head(c)
}

pub open spec fn is_digit_or_sep(c: char) -> bool {
    is_digit(c) || c == '_'
}

pub open spec fn digit_value(c: char) -> u8 {
    (c as u32 - '0' as u32) as u8
}

/// The end of the longest run from `pos` of characters that satisfy `f`.
pub open spec fn run_end(s: Seq<char>, pos: nat, f: spec_fn(char) -> bool) -> nat
    decreases s.len() - pos,
{
    if pos < s.len() && f(s[pos as int]) {
        run_end(s, pos + 1, f)
    } else {
        pos
    }
}

pub open spec fn skip_spaces(s: Seq<char>, pos: nat) -> nat {
    run_end(s, pos, |c: char| whitespace(c))
}

pub open spec fn tail_end(s: Seq<char>, pos: nat) -> nat {
    run_end(s, pos, |c: char| is_tail(c))
}

pub open spec fn digits_end(s: Seq<char>, pos: nat) -> nat {
    run_end(s, pos, |c: char| is_digit_or_sep(c))
}

/// The digits that a run of digits and `_` separators spells.
pub open spec fn digit_values(cs: Seq<char>) -> Seq<u8>
    decreases cs.len(),
{
    if cs.len() == 0 {
        Seq::empty()
    } else if cs.last() == '_' {
        digit_values(cs.drop_last())
    } else {
        digit_values(cs.drop_last()).push(digit_value(cs.last()))
    }
}

/// An identifier after optional spaces, and the position after the spaces
/// that follow it.
pub open spec fn identifier_spec(s: Seq<char>, pos: nat) -> Option<(Seq<char>, nat)> {
    let p = skip_spaces(s, pos);
    if p < s.len() && is_head(s[p as int]) {
        let e = tail_end(s, p + 1);
        Some((s.subrange(p as int, e as int), skip_spaces(s, e)))
    } else {
        None
    }
}

/// A digit followed by digits and `_` separators: its digits and its end.
pub open spec fn digit_run_spec(s: Seq<char>, pos: nat) -> Option<(Seq<u8>, nat)> {
    if pos < s.len() && is_digit(s[pos as int]) {
        let e = digits_end(s, pos);
        Some((digit_values(s.subrange(pos as int, e as int)), e))
    } else {
        None
    }
}

/// A numeric literal (`12`, `.5`, `1_000.25`, each with an optional `-`)
/// between optional spaces.
pub open spec fn number_spec(s: Seq<char>, pos: nat) -> Option<(DecimalView, nat)> {
    let p = skip_spaces(s, pos);
    let negative = p < s.len() && s[p as int] == '-';
    let q = if negative { p + 1 } else { p };
    match digit_run_spec(s, q) {
        Some((int_digits, e1)) => {
            if e1 < s.len() && s[e1 as int] == '.' && digit_run_spec(s, e1 + 1) is Some {
                let (frac_digits, e2) = digit_run_spec(s, e1 + 1)->Some_0;
                Some(((negative, int_digits, frac_digits), skip_spaces(s, e2)))
            } else {
                Some(((negative, int_digits, Seq::empty()), skip_spaces(s, e1)))
            }
        },
        None => {
            if q < s.len() && s[q as int] == '.' && digit_run_spec(s, q + 1) is Some {
                let (frac_digits, e2) = digit_run_spec(s, q + 1)->Some_0;
                Some(((negative, Seq::empty(), frac_digits), skip_spaces(s, e2)))
            } else {
                None
            }
        },
    }
}

/// Numbers separated by commas. A number reads at least one character, which
/// the guard `pos <= e` makes plain to the termination check.
pub open spec fn number_list_spec(s: Seq<char>, pos: nat) -> Option<(Seq<DecimalView>, nat)>
    decreases s.len() - pos,
{
    match number_spec(s, pos) {
        None => None,
        Some((x, e)) => {
            if pos <= e && e < s.len() && s[e as int] == ',' {
                match number_list_spec(s, e + 1) {
                    None => None,
                    Some((xs, f)) => Some((seq![x] + xs, f)),
                }
            } else {
                Some((seq![x], e))
            }
        },
    }
}

/// One stage; on failure, the position where the grammar stopped matching.
pub open spec fn term_spec(s: Seq<char>, pos: nat) -> Result<(TermView, nat), nat> {
    match identifier_spec(s, pos) {
        None => Err(skip_spaces(s, pos)),
        Some((name, e)) => {
            if e < s.len() && s[e as int] == '(' {
                let a = skip_spaces(s, e + 1);
                if a < s.len() && s[a as int] == ')' {
                    Ok(((name, Seq::empty()), a + 1))
                } else {
                    match number_list_spec(s, a) {
                        None => Err(a),
                        Some((xs, f)) => {
                            if f < s.len() && s[f as int] == ')' {
                                Ok(((name, xs), f + 1))
                            } else {
                                Err(f)
                            }
                        },
                    }
                }
            } else {
                Ok(((name, Seq::empty()), e))
            }
        },
    }
}

/// Stages separated by `|`. A stage reads at least one character, which the
/// guard `pos <= q` makes plain to the termination check.
pub open spec fn term_list_spec(s: Seq<char>, pos: nat) -> Result<(Seq<TermView>, nat), nat>
    decreases s.len() - pos,
{
    match term_spec(s, pos) {
        Err(p) => Err(p),
        Ok((t, e)) => {
            let q = skip_spaces(s, e);
            if pos <= q && q < s.len() && s[q as int] == '|' {
                match term_list_spec(s, q + 1) {
                    Err(p) => Err(p),
                    Ok((ts, f)) => Ok((seq![t] + ts, f)),
                }
            } else {
                Ok((seq![t], e))
            }
        },
    }
}

/// A whole input: the stages, or the position where it stops matching.
pub open spec fn parse_spec(s: Seq<char>) -> Result<Seq<TermView>, nat> {
    match term_list_spec(s, 0) {
        Err(p) => Err(p),
        Ok((ts, e)) => {
            let f = skip_spaces(s, e);
            if f == s.len() {
                Ok(ts)
            } else {
                Err(f)
            }
        },
    }
}

/// Skips whitespace from `pos`: the position of the first other character.
pub fn spaces(input: &Vec<char>, pos: usize) -> (r: usize)
    requires
        pos <= input@.len(),
    ensures
        r == skip_spaces(input@, pos as nat),
        pos <= r <= input@.len(),
{
    let mut i = pos;
    while i < input.len() && is_whitespace(input[i])
        invariant
            pos <= i <= input@.len(),
            skip_spaces(input@, i as nat) == skip_spaces(input@, pos as nat),
        decreases input@.len() - i,
    {
        i = i + 1;
    }
    i
}

/// The end of the run of identifier characters from `pos`.
fn identifier_tail(input: &Vec<char>, pos: usize) -> (r: usize)
    requires
        pos <= input@.len(),
    ensures
        r == tail_end(input@, pos as nat),
        pos <= r <= input@.len(),
{
    let mut i = pos;
    while i < input.len() && (is_alphanumeric(input[i]) || is_identifier_head(input[i]))
        invariant
            pos <= i <= input@.len(),
            tail_end(input@, i as nat) == tail_end(input@, pos as nat),
        decreases input@.len() - i,
    {
        i = i + 1;
    }
    i
}

fn is_identifier_head(c: char) -> (r: bool)
    ensures
        r == is_head(c),
{
    is_alphabetic(c) || c == '_' || c == '#' || c == '@'
}

/// An identifier after optional spaces: its name and the position after the
/// spaces that follow it.
pub fn identifier(input: &Vec<char>, pos: usize) -> (r: Option<(String, usize)>)
    requires
        pos <= input@.len(),
    ensures
        match r {
            Some((name, e)) => identifier_spec(input@, pos as nat) == Some((name@, e as nat))
                && pos < e <= input@.len(),
            None => identifier_spec(input@, pos as nat) is None,
        },
{
    let p = spaces(input, pos);
    if p < input.len() && is_identifier_head(input[p]) {
        let e = identifier_tail(input, p + 1);
        let name = string_of(input, p, e);
        let after = spaces(input, e);
        Some((name, after))
    } else {
        None
    }
}

/// A digit followed by digits and `_` separators, from `pos`: its digits with
/// the separators left out, and its end.
fn digit_run(input: &Vec<char>, pos: usize) -> (r: Option<(Vec<u8>, usize)>)
    requires
        pos <= input@.len(),
    ensures
        match r {
            Some((d, e)) => digit_run_spec(input@, pos as nat) == Some((d@, e as nat))
                && digits_ok(d@) && pos < e <= input@.len(),
            None => digit_run_spec(input@, pos as nat) is None,
        },
{
    if !(pos < input.len() && '0' <= input[pos] && input[pos] <= '9') {
        return None;
    }
    let ghost s = input@;
    let mut digits: Vec<u8> = Vec::new();
    let mut i = pos;
    while i < input.len() && (('0' <= input[i] && input[i] <= '9') || input[i] == '_')
        invariant
            s == input@,
            pos <= i <= s.len(),
            digits_end(s, i as nat) == digits_end(s, pos as nat),
            digits@ == digit_values(s.subrange(pos as int, i as int)),
            digits_ok(digits@),
        decreases s.len() - i,
    {
        let c = input[i];
        proof {
            assert(s.subrange(pos as int, i + 1).drop_last() =~= s.subrange(pos as int, i as int));
        }
        if c != '_' {
            digits.push((c as u32 - '0' as u32) as u8);
        }
        i = i + 1;
    }
    Some((digits, i))
}

/// A numeric literal (`12`, `.5`, `-1_000.25`) between optional spaces, and
/// the position after it.
pub fn number(input: &Vec<char>, pos: usize) -> (r: Option<(Decimal, usize)>)
    requires
        pos <= input@.len(),
    ensures
        match r {
            Some((x, e)) => number_spec(input@, pos as nat) == Some((x@, e as nat)) && x.wf()
                && pos < e <= input@.len(),
            None => number_spec(input@, pos as nat) is None,
        },
{
    let p = spaces(input, pos);
    let negative = p < input.len() && input[p] == '-';
    let q = if negative { p + 1 } else { p };
    match digit_run(input, q) {
        Some((int_digits, e1)) => {
            if e1 < input.len() && input[e1] == '.' {
                if let Some((frac_digits, e2)) = digit_run(input, e1 + 1) {
                    let e = spaces(input, e2);
                    return Some((Decimal { negative, int_digits, frac_digits }, e));
                }
            }
            let e = spaces(input, e1);
            let frac_digits: Vec<u8> = Vec::new();
            proof {
                assert(frac_digits@ =~= Seq::<u8>::empty());
            }
            Some((Decimal { negative, int_digits, frac_digits }, e))
        },
        None => {
            if q < input.len() && input[q] == '.' {
                if let Some((frac_digits, e2)) = digit_run(input, q + 1) {
                    let e = spaces(input, e2);
                    let int_digits: Vec<u8> = Vec::new();
                    proof {
                        assert(int_digits@ =~= Seq::<u8>::empty());
                    }
                    return Some((Decimal { negative, int_digits, frac_digits }, e));
                }
            }
            None
        },
    }
}

/// Numbers separated by commas, from `pos`.
fn number_list(input: &Vec<char>, pos: usize) -> (r: Option<(Vec<Decimal>, usize)>)
    requires
        pos <= input@.len(),
    ensures
        match r {
            Some((xs, e)) => number_list_spec(input@, pos as nat) == Some(
                (decimals_view(xs@), e as nat),
            ) && pos < e <= input@.len() && forall|j: int| 0 <= j < xs@.len() ==> (#[trigger] xs@[j]).wf(),
            None => number_list_spec(input@, pos as nat) is None,
        },
    decreases input@.len() - pos,
{
    match number(input, pos) {
        None => None,
        Some((x, e)) => {
            if pos <= e && e < input.len() && input[e] == ',' {
                match number_list(input, e + 1) {
                    None => None,
                    Some((mut rest, f)) => {
                        let ghost xv = x@;
                        let ghost rv = rest@;
                        let mut xs = vec![x];
                        xs.append(&mut rest);
                        proof {
                            assert(decimals_view(xs@) =~= seq![xv] + decimals_view(rv));
                            assert forall|j: int| 0 <= j < xs@.len() implies (#[trigger] xs@[j]).wf() by {
                                if j > 0 {
                                    assert(xs@[j] == rv[j - 1]);
                                }
                            }
                        }
                        Some((xs, f))
                    },
                }
            } else {
                let ghost xv = x@;
                let xs = vec![x];
                proof {
                    assert(decimals_view(xs@) =~= seq![xv]);
                }
                Some((xs, e))
            }
        },
    }
}

/// One stage from `pos`: a name with an optional parenthesised argument list.
fn term(input: &Vec<char>, pos: usize) -> (r: Result<(Term, usize), usize>)
    requires
        pos <= input@.len(),
    ensures
        match r {
            Ok((t, e)) => term_spec(input@, pos as nat) == Ok::<(TermView, nat), nat>((t@, e as nat))
                && pos < e <= input@.len() && forall|j: int| 0 <= j < t.1@.len() ==> (#[trigger] t.1@[j]).wf(),
            Err(p) => term_spec(input@, pos as nat) == Err::<(TermView, nat), nat>(p as nat),
        },
{
    match identifier(input, pos) {
        None => Err(spaces(input, pos)),
        Some((name, e)) => {
            if e < input.len() && input[e] == '(' {
                let a = spaces(input, e + 1);
                if a < input.len() && input[a] == ')' {
                    let args: Vec<Decimal> = Vec::new();
                    proof {
                        assert(decimals_view(args@) =~= Seq::<DecimalView>::empty());
                    }
                    Ok((Term(name, args), a + 1))
                } else {
                    match number_list(input, a) {
                        None => Err(a),
                        Some((xs, f)) => {
                            if f < input.len() && input[f] == ')' {
                                Ok((Term(name, xs), f + 1))
                            } else {
                                Err(f)
                            }
                        },
                    }
                }
            } else {
                let args: Vec<Decimal> = Vec::new();
                proof {
                    assert(decimals_view(args@) =~= Seq::<DecimalView>::empty());
                }
                Ok((Term(name, args), e))
            }
        },
    }
}

/// Stages separated by `|`, from `pos`.
fn term_list(input: &Vec<char>, pos: usize) -> (r: Result<(Vec<Term>, usize), usize>)
    requires
        pos <= input@.len(),
    ensures
        match r {
            Ok((ts, e)) => term_list_spec(input@, pos as nat) == Ok::<(Seq<TermView>, nat), nat>(
                (ts@.map_values(|t: Term| t@), e as nat),
            ) && pos < e <= input@.len() && ts@.len() >= 1 && (Expr { code: ts }).wf(),
            Err(p) => term_list_spec(input@, pos as nat) == Err::<(Seq<TermView>, nat), nat>(p as nat),
        },
    decreases input@.len() - pos,
{
    match term(input, pos) {
        Err(p) => Err(p),
        Ok((t, e)) => {
            let q = spaces(input, e);
            if pos <= q && q < input.len() && input[q] == '|' {
                match term_list(input, q + 1) {
                    Err(p) => Err(p),
                    Ok((mut rest, f)) => {
                        let ghost tv = t@;
                        let ghost rv = rest@;
                        let ghost er = Expr { code: rest };
                        let mut ts = vec![t];
                        ts.append(&mut rest);
                        proof {
                            assert(ts@.map_values(|t: Term| t@) =~= seq![tv] + rv.map_values(|t: Term| t@));
                            assert((Expr { code: ts }).wf()) by {
                                assert forall|i: int, j: int|
                                    0 <= i < ts@.len() && 0 <= j < ts@[i].1@.len() implies (
                                    #[trigger] ts@[i].1@[j]).wf() by {
                                    if i > 0 {
                                        assert(ts@[i] == rv[i - 1]);
                                        assert(er.code@[i - 1].1@[j].wf());
                                    }
                                }
                            }
                        }
                        Ok((ts, f))
                    },
                }
            } else {
                let ghost tv = t@;
                let ts = vec![t];
                proof {
                    assert(ts@.map_values(|t: Term| t@) =~= seq![tv]);
                }
                Ok((ts, e))
            }
        },
    }
}

/// Parses a whole pipeline: its stages, or `CalcError::Parse` with the
/// position where the input stops matching the grammar.
pub fn parse(input: String) -> (r: Result<Expr, CalcError>)
    ensures
        match r {
            Ok(e) => parse_spec(input@) == Ok::<Seq<TermView>, nat>(e@) && e.wf() && e.code@.len() >= 1,
            Err(CalcError::Parse(p)) => parse_spec(input@) == Err::<Seq<TermView>, nat>(p as nat),
            Err(_) => false,
        },
{
    let chars = chars_of(input.as_str());
    match term_list(&chars, 0) {
        Err(p) => Err(CalcError::Parse(p)),
        Ok((code, e)) => {
            let f = spaces(&chars, e);
            if f == chars.len() {
                Ok(Expr { code })
            } else {
                Err(CalcError::Parse(f))
            }
        },
    }
}

/// Every character of `w` is whitespace.
pub open spec fn all_whitespace(w: Seq<char>) -> bool {
    forall|i: int| 0 <= i < w.len() ==> whitespace(#[trigger] w[i])
}

proof fn lemma_run_end_bounds(s: Seq<char>, p: nat, f: spec_fn(char) -> bool)
    requires
        p <= s.len(),
    ensures
        p <= run_end(s, p, f) <= s.len(),
    decreases s.len() - p,
{
    if p < s.len() && f(s[p as int]) {
        lemma_run_end_bounds(s, p + 1, f);
    }
}

/// A run read after a prefix `w` ends `w.len()` places further on.
proof fn lemma_run_end_shift(w: Seq<char>, s: Seq<char>, p: nat, f: spec_fn(char) -> bool)
    requires
        p <= s.len(),
    ensures
        run_end(w + s, p + w.len(), f) == run_end(s, p, f) + w.len(),
    decreases s.len() - p,
{
    if p < s.len() {
        assert((w + s)[(p + w.len()) as int] == s[p as int]);
        if f(s[p as int]) {
            lemma_run_end_shift(w, s, p + 1, f);
            assert(p + 1 + w.len() == p + w.len() + 1);
        }
    }
}

/// Skipping whitespace from inside a run of whitespace ends where skipping
/// from its end does.
proof fn lemma_skip_within_spaces(s: Seq<char>, j: nat, k: nat)
    requires
        j <= k <= s.len(),
        forall|i: int| j <= i < k ==> whitespace(#[trigger] s[i]),
    ensures
        skip_spaces(s, j) == skip_spaces(s, k),
    decreases k - j,
{
    if j < k {
        lemma_skip_within_spaces(s, j + 1, k);
    }
}

proof fn lemma_identifier_shift(w: Seq<char>, s: Seq<char>, p: nat)
    requires
        p <= s.len(),
    ensures
        identifier_spec(w + s, p + w.len()) == match identifier_spec(s, p) {
            Some((name, e)) => Some((name, e + w.len())),
            None => None,
        },
{
    let k = w.len();
    let t = w + s;
    lemma_run_end_shift(w, s, p, |c: char| whitespace(c));
    let q = skip_spaces(s, p);
    lemma_run_end_bounds(s, p, |c: char| whitespace(c));
    if q < s.len() {
        assert(t[(q + k) as int] == s[q as int]);
        if is_head(s[q as int]) {
            lemma_run_end_shift(w, s, q + 1, |c: char| is_tail(c));
            lemma_run_end_bounds(s, q + 1, |c: char| is_tail(c));
            let e = tail_end(s, q + 1);
            assert(q + 1 + k == q + k + 1);
            lemma_run_end_shift(w, s, e, |c: char| whitespace(c));
            assert(t.subrange((q + k) as int, (e + k) as int) =~= s.subrange(q as int, e as int));
        }
    }
}

proof fn lemma_digit_run_shift(w: Seq<char>, s: Seq<char>, p: nat)
    requires
        p <= s.len(),
    ensures
        digit_run_spec(w + s, p + w.len()) == match digit_run_spec(s, p) {
            Some((d, e)) => Some((d, e + w.len())),
            None => None,
        },
        digit_run_spec(s, p) matches Some((d, e)) ==> p < e <= s.len(),
{
    let k = w.len();
    let t = w + s;
    if p < s.len() {
        assert(t[(p + k) as int] == s[p as int]);
        if is_digit(s[p as int]) {
            lemma_run_end_shift(w, s, p, |c: char| is_digit_or_sep(c));
            lemma_run_end_bounds(s, p + 1, |c: char| is_digit_or_sep(c));
            assert(digits_end(s, p) == digits_end(s, p + 1));
            let e = digits_end(s, p);
            assert(t.subrange((p + k) as int, (e + k) as int) =~= s.subrange(p as int, e as int));
        }
    }
}

proof fn lemma_number_shift(w: Seq<char>, s: Seq<char>, p: nat)
    requires
        p <= s.len(),
    ensures
        number_spec(w + s, p + w.len()) == match number_spec(s, p) {
            Some((x, e)) => Some((x, e + w.len())),
            None => None,
        },
        number_spec(s, p) matches Some((x, e)) ==> p < e <= s.len(),
{
    let k = w.len();
    let t = w + s;
    lemma_run_end_shift(w, s, p, |c: char| whitespace(c));
    lemma_run_end_bounds(s, p, |c: char| whitespace(c));
    let q0 = skip_spaces(s, p);
    if q0 < s.len() {
        assert(t[(q0 + k) as int] == s[q0 as int]);
    }
    let negative = q0 < s.len() && s[q0 as int] == '-';
    let q = if negative { q0 + 1 } else { q0 };
    assert((if negative { q0 + k + 1 } else { q0 + k }) == q + k);
    lemma_digit_run_shift(w, s, q);
    if q < s.len() {
        assert(t[(q + k) as int] == s[q as int]);
    }
    match digit_run_spec(s, q) {
        Some((_, e1)) => {
            lemma_run_end_shift(w, s, e1, |c: char| whitespace(c));
            lemma_run_end_bounds(s, e1, |c: char| whitespace(c));
            if e1 < s.len() {
                assert(t[(e1 + k) as int] == s[e1 as int]);
                lemma_digit_run_shift(w, s, e1 + 1);
                assert(e1 + 1 + k == e1 + k + 1);
                if let Some((_, e2)) = digit_run_spec(s, e1 + 1) {
                    lemma_run_end_shift(w, s, e2, |c: char| whitespace(c));
                    lemma_run_end_bounds(s, e2, |c: char| whitespace(c));
                }
            }
        },
        None => {
            if q < s.len() {
                lemma_digit_run_shift(w, s, q + 1);
                assert(q + 1 + k == q + k + 1);
                if let Some((_, e2)) = digit_run_spec(s, q + 1) {
                    lemma_run_end_shift(w, s, e2, |c: char| whitespace(c));
                    lemma_run_end_bounds(s, e2, |c: char| whitespace(c));
                }
            }
        },
    }
}

proof fn lemma_number_list_shift(w: Seq<char>, s: Seq<char>, p: nat)
    requires
        p <= s.len(),
    ensures
        number_list_spec(w + s, p + w.len()) == match number_list_spec(s, p) {
            Some((xs, e)) => Some((xs, e + w.len())),
            None => None,
        },
        number_list_spec(s, p) matches Some((xs, e)) ==> p < e <= s.len(),
    decreases s.len() - p,
{
    let k = w.len();
    let t = w + s;
    lemma_number_shift(w, s, p);
    if let Some((_, e)) = number_spec(s, p) {
        if e < s.len() {
            assert(t[(e + k) as int] == s[e as int]);
        }
        if p <= e && e < s.len() && s[e as int] == ',' {
            lemma_number_list_shift(w, s, e + 1);
            assert(e + 1 + k == e + k + 1);
        }
    }
}

proof fn lemma_term_shift(w: Seq<char>, s: Seq<char>, p: nat)
    requires
        p <= s.len(),
    ensures
        term_spec(w + s, p + w.len()) == match term_spec(s, p) {
            Ok((x, e)) => Ok::<(TermView, nat), nat>((x, e + w.len())),
            Err(q) => Err(q + w.len()),
        },
        term_spec(s, p) matches Ok((x, e)) ==> p < e <= s.len(),
{
    let k = w.len();
    let t = w + s;
    lemma_identifier_shift(w, s, p);
    lemma_run_end_shift(w, s, p, |c: char| whitespace(c));
    if let Some((name, e)) = identifier_spec(s, p) {
        lemma_run_end_bounds(s, p, |c: char| whitespace(c));
        let q = skip_spaces(s, p);
        lemma_run_end_bounds(s, q + 1, |c: char| is_tail(c));
        lemma_run_end_bounds(s, tail_end(s, q + 1), |c: char| whitespace(c));
        if e < s.len() {
            assert(t[(e + k) as int] == s[e as int]);
            if s[e as int] == '(' {
                lemma_run_end_shift(w, s, e + 1, |c: char| whitespace(c));
                lemma_run_end_bounds(s, e + 1, |c: char| whitespace(c));
                assert(e + 1 + k == e + k + 1);
                let a = skip_spaces(s, e + 1);
                if a < s.len() {
                    assert(t[(a + k) as int] == s[a as int]);
                }
                lemma_number_list_shift(w, s, a);
                if let Some((_, f)) = number_list_spec(s, a) {
                    if f < s.len() {
                        assert(t[(f + k) as int] == s[f as int]);
                    }
                }
            }
        }
    }
}

proof fn lemma_term_list_shift(w: Seq<char>, s: Seq<char>, p: nat)
    requires
        p <= s.len(),
    ensures
        term_list_spec(w + s, p + w.len()) == match term_list_spec(s, p) {
            Ok((ts, e)) => Ok::<(Seq<TermView>, nat), nat>((ts, e + w.len())),
            Err(q) => Err(q + w.len()),
        },
        term_list_spec(s, p) matches Ok((ts, e)) ==> p < e <= s.len(),
    decreases s.len() - p,
{
    let k = w.len();
    let t = w + s;
    lemma_term_shift(w, s, p);
    if let Ok((_, e)) = term_spec(s, p) {
        lemma_run_end_shift(w, s, e, |c: char| whitespace(c));
        lemma_run_end_bounds(s, e, |c: char| whitespace(c));
        let q = skip_spaces(s, e);
        if q < s.len() {
            assert(t[(q + k) as int] == s[q as int]);
        }
        if p <= q && q < s.len() && s[q as int] == '|' {
            lemma_term_list_shift(w, s, q + 1);
            assert(q + 1 + k == q + k + 1);
        }
    }
}

/// Whitespace before a pipeline changes nothing but the positions that parse
/// errors report, which move by its length.
pub proof fn lemma_leading_whitespace(w: Seq<char>, s: Seq<char>)
    requires
        all_whitespace(w),
    ensures
        parse_spec(w + s) == match parse_spec(s) {
            Ok(ts) => Ok::<Seq<TermView>, nat>(ts),
            Err(p) => Err(p + w.len()),
        },
{
    let k = w.len();
    let t = w + s;
    assert forall|i: int| 0 <= i < k implies whitespace(#[trigger] t[i]) by {
        assert(t[i] == w[i]);
    }
    lemma_skip_within_spaces(t, 0, k);
    lemma_term_list_shift(w, s, 0);
    lemma_identifier_shift(w, s, 0);
    lemma_term_shift(w, s, 0);
    assert(term_spec(t, 0) == term_spec(t, k));
    if let Ok((_, e)) = term_spec(t, k) {
        assert(e >= k);
        lemma_run_end_bounds(t, e, |c: char| whitespace(c));
    }
    assert(term_list_spec(t, 0) == term_list_spec(t, k));
    if let Ok((_, e)) = term_list_spec(s, 0) {
        lemma_run_end_shift(w, s, e, |c: char| whitespace(c));
    }
}

} // verus!
