//! The tokenizer: a single left-to-right pass over the character sequence
//! with one-character lookahead, never backtracking.
//!
//! [`spec_lex`] is the mathematical definition of the scan; [`lex`] is the
//! executable tokenizer, proved to return exactly what [`spec_lex`] says.

use crate::token::{
    is_identifier, spec_digit_val, spec_is_digit, spec_is_identifier, tokens_view, Decimal,
    SpecDecimal, SpecToken, Token,
};
use vstd::prelude::*;
use vstd::string::StrSliceExecFns;
use vstd::string::StringExecFns;

verus! {

/// A lexical failure: the character classification or literal scanning could
/// not produce a token.
#[derive(Debug, PartialEq)]
pub enum Error {
    /// No rule accepts this lead character.
    UnknownChar(char),
    /// Missing opening or closing quote, or input exhausted mid-string.
    UnableToParseString,
    /// Malformed integer run, or a value outside the `i64` range.
    UnableToParseInt,
    /// Malformed float run: a second dot, junk after the digits, or no digit
    /// on either side of the dot.
    UnableToParseFloat,
    /// An illegal character inside an identifier run.
    UnableToParseIdent,
}

// ---------------------------------------------------------------------------
// The mathematical scan, defined from the front of the character sequence.
// ---------------------------------------------------------------------------

/// How many characters a comment discards: everything up to (not including)
/// the next newline or the end of input.
pub open spec fn comment_len(cs: Seq<char>) -> nat
    decreases cs.len(),
{
    if cs.len() == 0 {
        0
    } else if cs[0] == '\n' {
        0
    } else {
        1 + comment_len(cs.drop_first())
    }
}

/// Length of an identifier run: characters up to the first space, newline or
/// end of input; an illegal character in the run is a failure.
pub open spec fn scan_ident_len(cs: Seq<char>) -> Result<nat, ()>
    decreases cs.len(),
{
    if cs.len() == 0 {
        Ok(0)
    } else if cs[0] == '\n' || cs[0] == ' ' {
        Ok(0)
    } else if !spec_is_identifier(cs[0]) {
        Err(())
    } else {
        match scan_ident_len(cs.drop_first()) {
            Ok(l) => Ok(1 + l),
            Err(e) => Err(e),
        }
    }
}

/// Length of a string body: characters up to (not including) the closing
/// quote; exhausting the input before a closing quote is a failure.
pub open spec fn string_body_len(cs: Seq<char>) -> Result<nat, ()>
    decreases cs.len(),
{
    if cs.len() == 0 {
        Err(())
    } else if cs[0] == '"' {
        Ok(0)
    } else {
        match string_body_len(cs.drop_first()) {
            Ok(l) => Ok(1 + l),
            Err(e) => Err(e),
        }
    }
}

/// What string scanning returns: the verbatim text between the quotes and
/// the number of characters consumed (both quotes included).
pub open spec fn scan_string(cs: Seq<char>) -> Result<(Seq<char>, nat), ()> {
    if cs.len() == 0 || cs[0] != '"' {
        Err(())
    } else {
        match string_body_len(cs.skip(1)) {
            Ok(l) => Ok((cs.subrange(1, 1 + l as int), (l + 2) as nat)),
            Err(e) => Err(e),
        }
    }
}

/// Length of a digit run.
pub open spec fn digits_len(cs: Seq<char>) -> nat
    decreases cs.len(),
{
    if cs.len() == 0 {
        0
    } else if !spec_is_digit(cs[0]) {
        0
    } else {
        1 + digits_len(cs.drop_first())
    }
}

/// The digit values of a run of digit characters.
pub open spec fn digit_seq(cs: Seq<char>) -> Seq<u8> {
    cs.map_values(|c: char| spec_digit_val(c))
}

/// The numeral value of a digit sequence, most significant digit first.
pub open spec fn digits_to_nat(ds: Seq<u8>) -> nat
    decreases ds.len(),
{
    if ds.len() == 0 {
        0
    } else {
        digits_to_nat(ds.drop_last()) * 10 + ds.last() as nat
    }
}

/// Whether `c` ends a numeric or identifier run.
pub open spec fn spec_is_terminator(c: char) -> bool {
    c == ' ' || c == '\n'
}

/// What numeric scanning returns: an optional sign, digits, optionally one
/// dot and more digits, up to a terminator or the end of input. A dot makes
/// the token a float, kept digit for digit; otherwise it is an `i64`. The
/// number of characters consumed (sign included) comes with the token.
pub open spec fn scan_number(cs: Seq<char>) -> Result<(SpecToken, nat), Error> {
    let neg = cs.len() > 0 && cs[0] == '-';
    let sign: nat = if neg { 1 } else { 0 };
    let rest = cs.skip(sign as int);
    let il = digits_len(rest);
    let ids = digit_seq(rest.subrange(0, il as int));
    if il == rest.len() || spec_is_terminator(rest[il as int]) {
        if il == 0 {
            Err(Error::UnableToParseInt)
        } else {
            let v: int = if neg { -(digits_to_nat(ids) as int) } else { digits_to_nat(ids) as int };
            if i64::MIN <= v <= i64::MAX {
                Ok((SpecToken::Int(v), sign + il))
            } else {
                Err(Error::UnableToParseInt)
            }
        }
    } else if rest[il as int] == '.' {
        let fl = digits_len(rest.skip(il as int + 1));
        let fds = digit_seq(rest.subrange(il as int + 1, il as int + 1 + fl as int));
        let j2 = il + 1 + fl;
        if j2 == rest.len() || spec_is_terminator(rest[j2 as int]) {
            if il + fl == 0 {
                Err(Error::UnableToParseFloat)
            } else {
                Ok(
                    (
                        SpecToken::Float(
                            SpecDecimal { neg, int_digits: ids, frac_digits: fds },
                        ),
                        sign + j2,
                    ),
                )
            }
        } else {
            Err(Error::UnableToParseFloat)
        }
    } else {
        Err(Error::UnableToParseInt)
    }
}

// ---------------------------------------------------------------------------
// Bounds of the scans, needed for termination of `spec_lex` and for the
// executable tokenizer.
// ---------------------------------------------------------------------------

pub proof fn lemma_comment_len_le(cs: Seq<char>)
    ensures
        comment_len(cs) <= cs.len(),
        comment_len(cs) < cs.len() ==> cs[comment_len(cs) as int] == '\n',
        forall|j: int| 0 <= j < comment_len(cs) ==> cs[j] != '\n',
    decreases cs.len(),
{
    if cs.len() > 0 && cs[0] != '\n' {
        lemma_comment_len_le(cs.drop_first());
        assert forall|j: int| 0 <= j < comment_len(cs) implies cs[j] != '\n' by {
            if j > 0 {
                assert(cs.drop_first()[j - 1] == cs[j]);
            }
        }
    }
}

pub proof fn lemma_scan_ident_len_le(cs: Seq<char>)
    ensures
        scan_ident_len(cs) matches Ok(l) ==> l <= cs.len(),
        scan_ident_len(cs) matches Ok(l) ==> forall|j: int|
            0 <= j < l ==> spec_is_identifier(cs[j]),
        scan_ident_len(cs) matches Ok(l) ==> (l < cs.len() ==> spec_is_terminator(cs[l as int])),
    decreases cs.len(),
{
    if cs.len() > 0 && cs[0] != '\n' && cs[0] != ' ' && spec_is_identifier(cs[0]) {
        lemma_scan_ident_len_le(cs.drop_first());
        match scan_ident_len(cs) {
            Ok(l) => {
                assert forall|j: int| 0 <= j < l implies spec_is_identifier(cs[j]) by {
                    if j > 0 {
                        assert(cs.drop_first()[j - 1] == cs[j]);
                    }
                }
            },
            Err(_) => {},
        }
    }
}

pub proof fn lemma_string_body_len_le(cs: Seq<char>)
    ensures
        string_body_len(cs) matches Ok(l) ==> l < cs.len() && cs[l as int] == '"',
    decreases cs.len(),
{
    if cs.len() > 0 && cs[0] != '"' {
        lemma_string_body_len_le(cs.drop_first());
    }
}

pub proof fn lemma_digits_len_le(cs: Seq<char>)
    ensures
        digits_len(cs) <= cs.len(),
        digits_len(cs) < cs.len() ==> !spec_is_digit(cs[digits_len(cs) as int]),
        forall|j: int| 0 <= j < digits_len(cs) ==> spec_is_digit(cs[j]),
    decreases cs.len(),
{
    if cs.len() > 0 && spec_is_digit(cs[0]) {
        lemma_digits_len_le(cs.drop_first());
        assert forall|j: int| 0 <= j < digits_len(cs) implies spec_is_digit(cs[j]) by {
            if j > 0 {
                assert(cs.drop_first()[j - 1] == cs[j]);
            }
        }
    }
}

/// Bound on the characters consumed by a successful numeric scan.
pub proof fn lemma_scan_number_le(cs: Seq<char>)
    ensures
        scan_number(cs) matches Ok(p) ==> 1 <= p.1 <= cs.len(),
    decreases cs.len(),
{
    let neg = cs.len() > 0 && cs[0] == '-';
    let sign: int = if neg { 1 } else { 0 };
    let rest = cs.skip(sign);
    lemma_digits_len_le(rest);
    let il = digits_len(rest) as int;
    if il < rest.len() && !spec_is_terminator(rest[il]) && rest[il] == '.' {
        lemma_digits_len_le(rest.skip(il + 1));
        assert(rest.skip(il + 1).len() == rest.len() - il - 1);
    }
}

/// No malformed numeric payload ever reaches a value: every float the
/// scanner produces is well-formed — digit values below ten and at least one
/// digit somewhere.
pub proof fn lemma_float_token_wf(cs: Seq<char>)
    ensures
        forall|d: SpecDecimal, k: nat|
            scan_number(cs) == Ok::<(SpecToken, nat), Error>((SpecToken::Float(d), k)) ==> d.wf(),
{
    let neg = cs.len() > 0 && cs[0] == '-';
    let sign: int = if neg { 1int } else { 0int };
    let rest = cs.skip(sign);
    lemma_digits_len_le(rest);
    let il = digits_len(rest) as int;
    let ids = digit_seq(rest.subrange(0, il));
    assert forall|m: int| 0 <= m < ids.len() implies ids[m] < 10 by {
        assert(spec_is_digit(rest.subrange(0, il)[m]));
    }
    if il < rest.len() && !spec_is_terminator(rest[il]) && rest[il] == '.' {
        let fl = digits_len(rest.skip(il + 1)) as int;
        lemma_digits_len_le(rest.skip(il + 1));
        let fds = digit_seq(rest.subrange(il + 1, il + 1 + fl));
        assert(rest.subrange(il + 1, il + 1 + fl) =~= rest.skip(il + 1).subrange(0, fl));
        assert forall|m: int| 0 <= m < fds.len() implies fds[m] < 10 by {
            assert(spec_is_digit(rest.skip(il + 1).subrange(0, fl)[m]));
        }
    }
}

// ---------------------------------------------------------------------------
// The tokenizer itself, as a mathematical function.
// ---------------------------------------------------------------------------

/// Prefixes an already-produced token run onto the outcome of lexing the
/// rest of the input; a failure anywhere fails the whole scan.
pub open spec fn lex_combine(
    ts: Seq<SpecToken>,
    r: Result<Seq<SpecToken>, Error>,
) -> Result<Seq<SpecToken>, Error> {
    match r {
        Ok(ts2) => Ok(ts + ts2),
        Err(e) => Err(e),
    }
}

/// The token a single structural character produces.
pub open spec fn single_char_tokens(c: char) -> Seq<SpecToken> {
    if c == '\n' {
        seq![SpecToken::NewLine]
    } else if c == '=' {
        seq![SpecToken::Equal]
    } else {
        seq![]
    }
}

/// The token an identifier run resolves to: the two keywords become
/// booleans, everything else stays a bare word.
pub open spec fn ident_token(text: Seq<char>) -> SpecToken {
    if text == "true"@ {
        SpecToken::Bool(true)
    } else if text == "false"@ {
        SpecToken::Bool(false)
    } else {
        SpecToken::Ident(text)
    }
}

/// The token sequence of a character sequence: dispatch on the lead
/// character, scan one token (or discard a comment or a space), and continue
/// on what is left. This is the definition the executable [`lex`] is held to.
pub open spec fn spec_lex(cs: Seq<char>) -> Result<Seq<SpecToken>, Error>
    decreases cs.len(),
        via spec_lex_decreases
{
    if cs.len() == 0 {
        Ok(Seq::empty())
    } else {
        let c = cs[0];
        if c == '#' {
            spec_lex(cs.skip(comment_len(cs) as int))
        } else if c == ' ' {
            lex_combine(seq![], spec_lex(cs.skip(1)))
        } else if c == '\n' {
            lex_combine(seq![SpecToken::NewLine], spec_lex(cs.skip(1)))
        } else if c == '=' {
            lex_combine(seq![SpecToken::Equal], spec_lex(cs.skip(1)))
        } else if c == '"' {
            match scan_string(cs) {
                Ok((text, k)) => lex_combine(
                    seq![SpecToken::String(text)],
                    spec_lex(cs.skip(k as int)),
                ),
                Err(_) => Err(Error::UnableToParseString),
            }
        } else if spec_is_digit(c) || c == '-' || c == '.' {
            match scan_number(cs) {
                Ok((t, k)) => lex_combine(seq![t], spec_lex(cs.skip(k as int))),
                Err(e) => Err(e),
            }
        } else if spec_is_identifier(c) {
            match scan_ident_len(cs) {
                Ok(l) => lex_combine(
                    seq![ident_token(cs.subrange(0, l as int))],
                    spec_lex(cs.skip(l as int)),
                ),
                Err(_) => Err(Error::UnableToParseIdent),
            }
        } else {
            Err(Error::UnknownChar(c))
        }
    }
}

#[via_fn]
proof fn spec_lex_decreases(cs: Seq<char>) {
    if cs.len() > 0 {
        let c = cs[0];
        lemma_comment_len_le(cs);
        lemma_scan_number_le(cs);
        if c == '"' {
            lemma_string_body_len_le(cs.skip(1));
        }
        if spec_is_identifier(c) {
            lemma_scan_ident_len_le(cs);
        }
    }
}

// ---------------------------------------------------------------------------
// The executable scanners, each proved against its mathematical scan.
// ---------------------------------------------------------------------------

/// Discards characters from position `i` up to (not including) the next
/// newline or the end of input, and returns the position reached.
pub fn skip_to_newline(s: &str, i: usize) -> (j: usize)
    requires
        i <= s@.len(),
    ensures
        i <= j <= s@.len(),
        j == i + comment_len(s@.skip(i as int)),
{
    let n = s.unicode_len();
    let mut j = i;
    loop
        invariant
            i <= j <= n,
            n == s@.len(),
            comment_len(s@.skip(i as int)) == j - i + comment_len(s@.skip(j as int)),
        decreases n - j,
    {
        if j == n {
            return j;
        }
        let c = s.get_char(j);
        if c == '\n' {
            assert(s@.skip(j as int)[0] == '\n');
            return j;
        }
        proof {
            assert(s@.skip(j as int)[0] == s@[j as int]);
            assert(s@.skip(j as int).drop_first() =~= s@.skip(j + 1 as int));
        }
        j = j + 1;
    }
}

/// Scans an identifier run starting at position `i`: characters up to the
/// first space, newline or end of input. Fails on any character that is not
/// an identifier character.
pub fn parse_ident(s: &str, i: usize) -> (r: Result<(String, usize), Error>)
    requires
        i <= s@.len(),
    ensures
        match scan_ident_len(s@.skip(i as int)) {
            Ok(l) => r matches Ok(p) && p.0@ == s@.subrange(i as int, i + l) && p.1 == i + l,
            Err(_) => r == Err::<(String, usize), Error>(Error::UnableToParseIdent),
        },
{
    let n = s.unicode_len();
    let mut j = i;
    loop
        invariant
            i <= j <= n,
            n == s@.len(),
            match scan_ident_len(s@.skip(j as int)) {
                Ok(l) => scan_ident_len(s@.skip(i as int)) == Ok::<nat, ()>((j - i + l) as nat),
                Err(_) => scan_ident_len(s@.skip(i as int)) == Err::<nat, ()>(()),
            },
        ensures
            i <= j <= n,
            scan_ident_len(s@.skip(i as int)) == Ok::<nat, ()>((j - i) as nat),
        decreases n - j,
    {
        if j == n {
            break;
        }
        let c = s.get_char(j);
        assert(s@.skip(j as int)[0] == s@[j as int]);
        if c == '\n' || c == ' ' {
            break;
        }
        if !is_identifier(c) {
            return Err(Error::UnableToParseIdent);
        }
        proof {
            assert(s@.skip(j as int).drop_first() =~= s@.skip(j + 1 as int));
        }
        j = j + 1;
    }
    assert(scan_ident_len(s@.skip(i as int)) == Ok::<nat, ()>((j - i) as nat));
    let text = s.substring_char(i, j).to_owned();
    Ok((text, j))
}

/// Scans a string literal starting at position `i`: a leading quote, the
/// verbatim body, and a closing quote. Fails if the input is exhausted
/// before the leading quote, if the lead character is not a quote, or if no
/// closing quote follows.
pub fn parse_string(s: &str, i: usize) -> (r: Result<(String, usize), Error>)
    requires
        i <= s@.len(),
    ensures
        match scan_string(s@.skip(i as int)) {
            Ok(p) => r matches Ok(q) && q.0@ == p.0 && q.1 == i + p.1,
            Err(_) => r == Err::<(String, usize), Error>(Error::UnableToParseString),
        },
{
    let n = s.unicode_len();
    if i == n {
        return Err(Error::UnableToParseString);
    }
    let c0 = s.get_char(i);
    assert(s@.skip(i as int)[0] == s@[i as int]);
    if c0 != '"' {
        return Err(Error::UnableToParseString);
    }
    proof {
        crate::token::lemma_skip_skip(s@, i as int, 1);
    }
    let mut j = i + 1;
    loop
        invariant
            i + 1 <= j <= n,
            n == s@.len(),
            s@[i as int] == '"',
            s@.skip(i as int)[0] == '"',
            s@.skip(i as int).skip(1) == s@.skip(i + 1 as int),
            match string_body_len(s@.skip(j as int)) {
                Ok(l) => string_body_len(s@.skip(i + 1 as int)) == Ok::<nat, ()>(
                    (j - i - 1 + l) as nat,
                ),
                Err(_) => string_body_len(s@.skip(i + 1 as int)) == Err::<nat, ()>(()),
            },
        ensures
            i + 1 <= j < n,
            string_body_len(s@.skip(i + 1 as int)) == Ok::<nat, ()>((j - i - 1) as nat),
        decreases n - j,
    {
        if j == n {
            return Err(Error::UnableToParseString);
        }
        let c = s.get_char(j);
        assert(s@.skip(j as int)[0] == s@[j as int]);
        if c == '"' {
            break;
        }
        proof {
            assert(s@.skip(j as int).drop_first() =~= s@.skip(j + 1 as int));
        }
        j = j + 1;
    }
    let ghost l = (j - i - 1) as nat;
    assert(string_body_len(s@.skip(i + 1 as int)) == Ok::<nat, ()>(l));
    proof {
        assert(s@.skip(i as int).subrange(1, 1 + l as int) =~= s@.subrange(i + 1, j as int));
    }
    let text = s.substring_char(i + 1, j).to_owned();
    Ok((text, j + 1))
}

/// A numeral is never smaller than the numeral of one of its prefixes.
proof fn lemma_digits_to_nat_grows(ds: Seq<u8>, k: int)
    requires
        0 <= k <= ds.len(),
    ensures
        digits_to_nat(ds.take(k)) <= digits_to_nat(ds),
    decreases ds.len() - k,
{
    if k < ds.len() {
        let a = ds.take(k);
        let b = ds.take(k + 1);
        assert(b.drop_last() =~= a);
        assert(digits_to_nat(b) == digits_to_nat(a) * 10 + b.last() as nat);
        lemma_digits_to_nat_grows(ds, k + 1);
    } else {
        assert(ds.take(k) =~= ds);
    }
}

/// Scans the digit run starting at position `i` and returns the digit values
/// together with the position just past the run.
fn scan_digit_run(s: &str, i: usize) -> (r: (Vec<u8>, usize))
    requires
        i <= s@.len(),
    ensures
        r.1 == i + digits_len(s@.skip(i as int)),
        i <= r.1 <= s@.len(),
        r.0@ == digit_seq(s@.subrange(i as int, r.1 as int)),
{
    let n = s.unicode_len();
    let mut j = i;
    let mut ds: Vec<u8> = Vec::new();
    proof {
        assert(ds@ =~= digit_seq(s@.subrange(i as int, i as int)));
    }
    loop
        invariant
            i <= j <= n,
            n == s@.len(),
            digits_len(s@.skip(i as int)) == j - i + digits_len(s@.skip(j as int)),
            ds@ == digit_seq(s@.subrange(i as int, j as int)),
        ensures
            i <= j <= n,
            digits_len(s@.skip(i as int)) == j - i,
            ds@ == digit_seq(s@.subrange(i as int, j as int)),
        decreases n - j,
    {
        if j == n {
            break;
        }
        let c = s.get_char(j);
        assert(s@.skip(j as int)[0] == s@[j as int]);
        if !crate::token::is_ascii_digit(c) {
            break;
        }
        let d: u8 = (c as u32 - 48) as u8;
        ds.push(d);
        proof {
            assert(s@.skip(j as int).drop_first() =~= s@.skip(j + 1 as int));
            assert(s@.subrange(i as int, j + 1 as int) =~= s@.subrange(i as int, j as int).push(
                s@[j as int],
            ));
            assert(digit_seq(s@.subrange(i as int, j + 1 as int)) =~= digit_seq(
                s@.subrange(i as int, j as int),
            ).push(spec_digit_val(s@[j as int])));
        }
        j = j + 1;
    }
    (ds, j)
}

/// Converts a digit run to a signed 64-bit integer; `None` when the value
/// does not fit.
fn digits_to_i64(ds: &Vec<u8>, neg: bool) -> (r: Option<i64>)
    requires
        forall|m: int| 0 <= m < ds@.len() ==> ds@[m] < 10,
    ensures
        ({
            let v: int = if neg {
                -(digits_to_nat(ds@) as int)
            } else {
                digits_to_nat(ds@) as int
            };
            match r {
                Some(x) => x as int == v,
                None => !(i64::MIN <= v <= i64::MAX),
            }
        }),
{
    let limit: u128 = if neg {
        9223372036854775808
    } else {
        9223372036854775807
    };
    let mut acc: u128 = 0;
    let mut m: usize = 0;
    proof {
        assert(ds@.take(0) =~= Seq::<u8>::empty());
    }
    while m < ds.len()
        invariant
            m <= ds@.len(),
            forall|k: int| 0 <= k < ds@.len() ==> ds@[k] < 10,
            limit == if neg { 9223372036854775808u128 } else { 9223372036854775807u128 },
            acc == digits_to_nat(ds@.take(m as int)),
            acc <= limit,
        decreases ds@.len() - m,
    {
        let d = ds[m];
        let next: u128 = acc * 10 + (d as u128);
        proof {
            assert(ds@.take(m + 1 as int).drop_last() =~= ds@.take(m as int));
            assert(digits_to_nat(ds@.take(m + 1 as int)) == acc * 10 + d as nat);
        }
        if next > limit {
            proof {
                lemma_digits_to_nat_grows(ds@, m + 1 as int);
            }
            return None;
        }
        acc = next;
        m = m + 1;
    }
    proof {
        assert(ds@.take(ds@.len() as int) =~= ds@);
    }
    if neg {
        if acc == 9223372036854775808 {
            Some(i64::MIN)
        } else {
            Some(-(acc as i64))
        }
    } else {
        Some(acc as i64)
    }
}

/// Scans a numeric literal starting at position `i`: an optional sign,
/// digits, and optionally a single dot with more digits, up to a space, a
/// newline or the end of input. A dot makes the token a float; otherwise the
/// run must convert to an `i64`.
pub fn parse_num(s: &str, i: usize) -> (r: Result<(Token, usize), Error>)
    requires
        i <= s@.len(),
    ensures
        match scan_number(s@.skip(i as int)) {
            Ok(p) => r matches Ok(q) && q.0@ == p.0 && q.1 == i + p.1,
            Err(e) => r == Err::<(Token, usize), Error>(e),
        },
{
    let ghost cs = s@.skip(i as int);
    let n = s.unicode_len();
    let mut neg = false;
    let mut i1 = i;
    if i < n {
        let c0 = s.get_char(i);
        assert(cs[0] == s@[i as int]);
        if c0 == '-' {
            neg = true;
            i1 = i + 1;
        }
    }
    let ghost sign: int = if neg { 1int } else { 0int };
    proof {
        crate::token::lemma_skip_skip(s@, i as int, sign);
    }
    let ghost rest = cs.skip(sign);
    assert(rest == s@.skip(i1 as int));
    let (int_digits, j) = scan_digit_run(s, i1);
    let ghost il = digits_len(rest) as int;
    proof {
        assert(s@.subrange(i1 as int, j as int) =~= rest.subrange(0, il));
        lemma_digits_len_le(rest);
        assert forall|m: int| 0 <= m < int_digits@.len() implies int_digits@[m] < 10 by {
            assert(spec_is_digit(rest.subrange(0, il)[m]));
        }
    }
    let ghost ids = digit_seq(rest.subrange(0, il));
    let mut terminated = j == n;
    let mut dotted = false;
    if j < n {
        let c = s.get_char(j);
        assert(rest[il] == s@[j as int]);
        if c == ' ' || c == '\n' {
            terminated = true;
        } else if c == '.' {
            dotted = true;
        }
    }
    if terminated {
        // integer path
        if int_digits.len() == 0 {
            return Err(Error::UnableToParseInt);
        }
        match digits_to_i64(&int_digits, neg) {
            Some(v) => {
                return Ok((Token::Int(v), j));
            },
            None => {
                return Err(Error::UnableToParseInt);
            },
        }
    }
    if !dotted {
        return Err(Error::UnableToParseInt);
    }
    // float path: a dot at position j, fraction digits after it
    proof {
        crate::token::lemma_skip_skip(s@, i1 as int, il + 1);
        assert(rest.skip(il + 1) == s@.skip(j + 1 as int));
    }
    let (frac_digits, k) = scan_digit_run(s, j + 1);
    let ghost fl = digits_len(rest.skip(il + 1)) as int;
    proof {
        assert(s@.subrange(j + 1 as int, k as int) =~= rest.subrange(il + 1, il + 1 + fl));
        lemma_digits_len_le(rest.skip(il + 1));
        assert(rest.subrange(il + 1, il + 1 + fl) =~= rest.skip(il + 1).subrange(0, fl));
    }
    let mut frac_terminated = k == n;
    if k < n {
        let c2 = s.get_char(k);
        assert(rest[il + 1 + fl] == s@[k as int]);
        if c2 == ' ' || c2 == '\n' {
            frac_terminated = true;
        }
    }
    if !frac_terminated {
        return Err(Error::UnableToParseFloat);
    }
    if int_digits.len() == 0 && frac_digits.len() == 0 {
        return Err(Error::UnableToParseFloat);
    }
    Ok((Token::Float(Decimal { neg, int_digits, frac_digits }), k))
}


/// Folding one more produced token into the already-produced run commutes
/// with [`lex_combine`].
proof fn lemma_lex_step(done: Seq<Token>, t: Token, rest: Result<Seq<SpecToken>, Error>)
    ensures
        lex_combine(tokens_view(done), lex_combine(seq![t@], rest)) == lex_combine(
            tokens_view(done.push(t)),
            rest,
        ),
{
    assert(tokens_view(done.push(t)) =~= tokens_view(done).push(t@));
    match rest {
        Ok(ts) => {
            assert(tokens_view(done) + (seq![t@] + ts) =~= tokens_view(done.push(t)) + ts);
        },
        Err(_) => {},
    }
}

/// Scans the whole input and produces its ordered token sequence, exactly as
/// [`spec_lex`] describes: comments and spaces are discarded, every other
/// character starts a token, and the first lexical failure aborts the scan.
pub fn lex(input: &str) -> (r: Result<Vec<Token>, Error>)
    ensures
        match r {
            Ok(tokens) => spec_lex(input@) == Ok::<Seq<SpecToken>, Error>(tokens_view(tokens@)),
            Err(e) => spec_lex(input@) == Err::<Seq<SpecToken>, Error>(e),
        },
{
    let n = input.unicode_len();
    let mut tokens: Vec<Token> = Vec::new();
    let mut i: usize = 0;
    proof {
        assert(tokens_view(tokens@) =~= Seq::<SpecToken>::empty());
        assert(input@.skip(0) =~= input@);
        match spec_lex(input@) {
            Ok(ts) => {
                assert(tokens_view(tokens@) + ts =~= ts);
            },
            Err(_) => {},
        }
    }
    loop
        invariant
            i <= n,
            n == input@.len(),
            spec_lex(input@) == lex_combine(tokens_view(tokens@), spec_lex(input@.skip(i as int))),
        ensures
            i == n,
            spec_lex(input@) == lex_combine(tokens_view(tokens@), spec_lex(input@.skip(i as int))),
        decreases n - i,
    {
        if i == n {
            break;
        }
        let ghost cs = input@.skip(i as int);
        let ghost done = tokens@;
        let c = input.get_char(i);
        assert(cs[0] == input@[i as int]);
        if c == '#' {
            let j = skip_to_newline(input, i);
            proof {
                crate::token::lemma_skip_skip(input@, i as int, comment_len(cs) as int);
                lemma_comment_len_le(cs);
                assert(spec_lex(cs) == spec_lex(input@.skip(j as int)));
            }
            i = j;
        } else if c == ' ' {
            proof {
                crate::token::lemma_skip_skip(input@, i as int, 1);
                assert(spec_lex(cs) == lex_combine(seq![], spec_lex(input@.skip(i + 1 as int))));
                match spec_lex(input@.skip(i + 1 as int)) {
                    Ok(ts) => {
                        assert(seq![] + ts =~= ts);
                    },
                    Err(_) => {},
                }
            }
            i = i + 1;
        } else if c == '\n' {
            proof {
                crate::token::lemma_skip_skip(input@, i as int, 1);
                lemma_lex_step(done, Token::NewLine, spec_lex(input@.skip(i + 1 as int)));
            }
            tokens.push(Token::NewLine);
            i = i + 1;
        } else if c == '=' {
            proof {
                crate::token::lemma_skip_skip(input@, i as int, 1);
                lemma_lex_step(done, Token::Equal, spec_lex(input@.skip(i + 1 as int)));
            }
            tokens.push(Token::Equal);
            i = i + 1;
        } else if c == '"' {
            match parse_string(input, i) {
                Ok((text, j)) => {
                    let ghost k = scan_string(cs)->Ok_0.1;
                    proof {
                        lemma_string_body_len_le(cs.skip(1));
                        crate::token::lemma_skip_skip(input@, i as int, k as int);
                        lemma_lex_step(
                            done,
                            Token::String(text),
                            spec_lex(input@.skip(j as int)),
                        );
                    }
                    tokens.push(Token::String(text));
                    i = j;
                },
                Err(e) => {
                    return Err(e);
                },
            }
        } else if crate::token::is_ascii_digit(c) || c == '-' || c == '.' {
            match parse_num(input, i) {
                Ok((t, j)) => {
                    let ghost k = scan_number(cs)->Ok_0.1;
                    proof {
                        lemma_scan_number_le(cs);
                        crate::token::lemma_skip_skip(input@, i as int, k as int);
                        lemma_lex_step(done, t, spec_lex(input@.skip(j as int)));
                    }
                    tokens.push(t);
                    i = j;
                },
                Err(e) => {
                    return Err(e);
                },
            }
        } else if is_identifier(c) {
            match parse_ident(input, i) {
                Ok((text, j)) => {
                    let ghost l = scan_ident_len(cs)->Ok_0;
                    proof {
                        lemma_scan_ident_len_le(cs);
                        crate::token::lemma_skip_skip(input@, i as int, l as int);
                        assert(cs.subrange(0, l as int) =~= input@.subrange(i as int, i + l));
                    }
                    let kw_true: String = "true".to_owned();
                    let kw_false: String = "false".to_owned();
                    let t: Token = if text == kw_true {
                        Token::Bool(true)
                    } else if text == kw_false {
                        Token::Bool(false)
                    } else {
                        Token::Ident(text)
                    };
                    proof {
                        lemma_lex_step(done, t, spec_lex(input@.skip(j as int)));
                    }
                    tokens.push(t);
                    i = j;
                },
                Err(e) => {
                    return Err(e);
                },
            }
        } else {
            return Err(Error::UnknownChar(c));
        }
    }
    proof {
        assert(spec_lex(input@.skip(n as int)) == Ok::<Seq<SpecToken>, Error>(Seq::empty()));
        assert(tokens_view(tokens@) + Seq::<SpecToken>::empty() =~= tokens_view(tokens@));
    }
    Ok(tokens)
}

// ---------------------------------------------------------------------------
// Stability of the scans under appended text: a scan that stops strictly
// inside the sequence stops at the same place whatever follows.
// ---------------------------------------------------------------------------

pub proof fn lemma_comment_len_append(cs: Seq<char>, ext: Seq<char>)
    ensures
        comment_len(cs + ext) == if comment_len(cs) < cs.len() {
            comment_len(cs) as int
        } else {
            cs.len() + comment_len(ext) as int
        },
    decreases cs.len(),
{
    lemma_comment_len_le(cs);
    if cs.len() == 0 {
        assert(cs + ext =~= ext);
    } else {
        assert((cs + ext)[0] == cs[0]);
        if cs[0] != '\n' {
            assert((cs + ext).drop_first() =~= cs.drop_first() + ext);
            lemma_comment_len_append(cs.drop_first(), ext);
        }
    }
}

pub proof fn lemma_scan_ident_len_append(cs: Seq<char>, ext: Seq<char>)
    ensures
        scan_ident_len(cs) is Err ==> scan_ident_len(cs + ext) == scan_ident_len(cs),
        scan_ident_len(cs) matches Ok(l) && l < cs.len() ==> scan_ident_len(cs + ext)
            == scan_ident_len(cs),
    decreases cs.len(),
{
    if cs.len() > 0 {
        assert((cs + ext)[0] == cs[0]);
        if cs[0] != '\n' && cs[0] != ' ' && spec_is_identifier(cs[0]) {
            assert((cs + ext).drop_first() =~= cs.drop_first() + ext);
            lemma_scan_ident_len_append(cs.drop_first(), ext);
        }
    }
}

pub proof fn lemma_string_body_len_append(cs: Seq<char>, ext: Seq<char>)
    ensures
        string_body_len(cs) is Ok ==> string_body_len(cs + ext) == string_body_len(cs),
    decreases cs.len(),
{
    if cs.len() > 0 {
        assert((cs + ext)[0] == cs[0]);
        if cs[0] != '"' {
            assert((cs + ext).drop_first() =~= cs.drop_first() + ext);
            lemma_string_body_len_append(cs.drop_first(), ext);
        }
    }
}

pub proof fn lemma_scan_string_append(cs: Seq<char>, ext: Seq<char>)
    ensures
        scan_string(cs) is Ok ==> scan_string(cs + ext) == scan_string(cs),
{
    if cs.len() > 0 && cs[0] == '"' {
        assert((cs + ext)[0] == cs[0]);
        assert((cs + ext).skip(1) =~= cs.skip(1) + ext);
        lemma_string_body_len_append(cs.skip(1), ext);
        match string_body_len(cs.skip(1)) {
            Ok(l) => {
                lemma_string_body_len_le(cs.skip(1));
                assert((cs + ext).subrange(1, 1 + l as int) =~= cs.subrange(1, 1 + l as int));
            },
            Err(_) => {},
        }
    }
}

pub proof fn lemma_digits_len_append(cs: Seq<char>, ext: Seq<char>)
    ensures
        digits_len(cs) < cs.len() ==> digits_len(cs + ext) == digits_len(cs),
    decreases cs.len(),
{
    if cs.len() > 0 {
        assert((cs + ext)[0] == cs[0]);
        if spec_is_digit(cs[0]) {
            assert((cs + ext).drop_first() =~= cs.drop_first() + ext);
            lemma_digits_len_append(cs.drop_first(), ext);
        }
    }
}

pub proof fn lemma_scan_number_append(cs: Seq<char>, ext: Seq<char>)
    requires
        scan_number(cs) matches Ok(p) && p.1 < cs.len(),
    ensures
        scan_number(cs + ext) == scan_number(cs),
{
    let k = scan_number(cs)->Ok_0.1;
    let neg = cs.len() > 0 && cs[0] == '-';
    let sign: int = if neg { 1int } else { 0int };
    assert(cs.len() > 0);
    assert((cs + ext)[0] == cs[0]);
    let rest = cs.skip(sign);
    let reste = (cs + ext).skip(sign);
    assert(reste =~= rest + ext);
    let il = digits_len(rest) as int;
    lemma_digits_len_le(rest);
    // A successful scan that ends strictly inside the sequence never lets
    // the digit run reach the end.
    assert(il < rest.len());
    lemma_digits_len_append(rest, ext);
    assert(digits_len(reste) == il);
    assert(reste[il] == rest[il]);
    assert(reste.subrange(0, il) =~= rest.subrange(0, il));
    if spec_is_terminator(rest[il]) {
        // the integer path
        assert(scan_number(cs + ext) == scan_number(cs));
    } else {
        assert(rest[il] == '.');
        let fl = digits_len(rest.skip(il + 1)) as int;
        let j2 = il + 1 + fl;
        lemma_digits_len_le(rest.skip(il + 1));
        assert(k == sign + j2);
        assert(j2 < rest.len());
        assert(fl < rest.skip(il + 1).len());
        assert(reste.skip(il + 1) =~= rest.skip(il + 1) + ext);
        lemma_digits_len_append(rest.skip(il + 1), ext);
        assert(digits_len(reste.skip(il + 1)) == fl);
        assert(reste[j2] == rest[j2]);
        assert(reste.subrange(il + 1, il + 1 + fl) =~= rest.subrange(il + 1, il + 1 + fl));
        assert(scan_number(cs + ext) == scan_number(cs));
    }
}

// ---------------------------------------------------------------------------
// Laws of the tokenizer.
// ---------------------------------------------------------------------------

proof fn lemma_combine_assoc(ts1: Seq<SpecToken>, ts2: Seq<SpecToken>, r: Result<Seq<SpecToken>, Error>)
    ensures
        lex_combine(ts1, lex_combine(ts2, r)) == lex_combine(ts1 + ts2, r),
{
    match r {
        Ok(ts) => {
            assert(ts1 + (ts2 + ts) =~= (ts1 + ts2) + ts);
        },
        Err(_) => {},
    }
}

proof fn lemma_combine_empty(r: Result<Seq<SpecToken>, Error>)
    ensures
        lex_combine(seq![], r) == r,
{
    match r {
        Ok(ts) => {
            assert(seq![] + ts =~= ts);
        },
        Err(_) => {},
    }
}

/// A successful numeric scan whose input does not end in a digit or a dot
/// stops strictly inside the input.
proof fn lemma_scan_number_ends_inside(cs: Seq<char>)
    requires
        scan_number(cs) is Ok,
        cs.len() > 0,
        !spec_is_digit(cs.last()),
        cs.last() != '.',
    ensures
        scan_number(cs)->Ok_0.1 < cs.len(),
{
    let neg = cs[0] == '-';
    let sign: int = if neg { 1int } else { 0int };
    let rest = cs.skip(sign);
    assert(rest.len() > 0) by {
        if rest.len() == 0 {
            assert(digits_len(rest) == 0);
        }
    }
    assert(rest.last() == cs.last());
    lemma_digits_len_le(rest);
    let il = digits_len(rest) as int;
    assert(il < rest.len()) by {
        if il == rest.len() {
            assert(spec_is_digit(rest[il - 1]));
        }
    }
    if !spec_is_terminator(rest[il]) {
        assert(rest[il] == '.');
        let fl = digits_len(rest.skip(il + 1)) as int;
        let j2 = il + 1 + fl;
        lemma_digits_len_le(rest.skip(il + 1));
        assert(j2 < rest.len()) by {
            if j2 == rest.len() {
                if fl > 0 {
                    assert(spec_is_digit(rest.skip(il + 1)[fl - 1]));
                    assert(rest.skip(il + 1)[fl - 1] == rest[j2 - 1]);
                } else {
                    assert(rest[j2 - 1] == '.');
                }
            }
        }
    }
}

/// A successful identifier scan whose input does not end in an identifier
/// character stops strictly inside the input.
proof fn lemma_scan_ident_ends_inside(cs: Seq<char>)
    requires
        scan_ident_len(cs) is Ok,
        cs.len() > 0,
        !spec_is_identifier(cs.last()),
    ensures
        scan_ident_len(cs)->Ok_0 < cs.len(),
{
    lemma_scan_ident_len_le(cs);
    let l = scan_ident_len(cs)->Ok_0 as int;
    if l == cs.len() {
        assert(spec_is_identifier(cs[l - 1]));
    }
}

/// A successful string scan whose input does not end in a quote stops
/// strictly inside the input.
proof fn lemma_scan_string_ends_inside(cs: Seq<char>)
    requires
        scan_string(cs) is Ok,
        cs.len() > 0,
        cs.last() != '"',
    ensures
        scan_string(cs)->Ok_0.1 < cs.len(),
{
    lemma_string_body_len_le(cs.skip(1));
    let l = string_body_len(cs.skip(1))->Ok_0 as int;
    assert(cs.skip(1)[l] == '"');
    assert(cs[1 + l] == '"');
    assert(1 + l < cs.len());
}

proof fn lemma_unfold_comment(p: Seq<char>, e: Seq<char>)
    requires
        p.len() > 0,
        p[0] == '#',
        comment_len(p) < p.len(),
    ensures
        spec_lex(p + e) == spec_lex(p.skip(comment_len(p) as int) + e),
{
    let cl = comment_len(p) as int;
    lemma_comment_len_append(p, e);
    assert((p + e)[0] == '#');
    assert((p + e).skip(cl) =~= p.skip(cl) + e);
}

proof fn lemma_unfold_single(p: Seq<char>, e: Seq<char>)
    requires
        p.len() > 0,
        p[0] == ' ' || p[0] == '\n' || p[0] == '=',
    ensures
        spec_lex(p + e) == lex_combine(single_char_tokens(p[0]), spec_lex(p.skip(1) + e)),
        spec_lex(p) == lex_combine(single_char_tokens(p[0]), spec_lex(p.skip(1))),
{
    assert((p + e)[0] == p[0]);
    assert((p + e).skip(1) =~= p.skip(1) + e);
    if p[0] == ' ' {
        lemma_combine_empty(spec_lex(p.skip(1) + e));
        lemma_combine_empty(spec_lex(p.skip(1)));
    }
}

proof fn lemma_unfold_string(p: Seq<char>, e: Seq<char>)
    requires
        p.len() > 0,
        p[0] == '"',
        scan_string(p) is Ok,
    ensures
        scan_string(p)->Ok_0.1 <= p.len(),
        spec_lex(p + e) == lex_combine(
            seq![SpecToken::String(scan_string(p)->Ok_0.0)],
            spec_lex(p.skip(scan_string(p)->Ok_0.1 as int) + e),
        ),
        spec_lex(p) == lex_combine(
            seq![SpecToken::String(scan_string(p)->Ok_0.0)],
            spec_lex(p.skip(scan_string(p)->Ok_0.1 as int)),
        ),
{
    let k = scan_string(p)->Ok_0.1 as int;
    lemma_string_body_len_le(p.skip(1));
    lemma_scan_string_append(p, e);
    assert((p + e)[0] == p[0]);
    assert((p + e).skip(k) =~= p.skip(k) + e);
}

proof fn lemma_unfold_number(p: Seq<char>, e: Seq<char>)
    requires
        p.len() > 0,
        spec_is_digit(p[0]) || p[0] == '-' || p[0] == '.',
        scan_number(p) is Ok,
        scan_number(p)->Ok_0.1 < p.len(),
    ensures
        spec_lex(p + e) == lex_combine(
            seq![scan_number(p)->Ok_0.0],
            spec_lex(p.skip(scan_number(p)->Ok_0.1 as int) + e),
        ),
        spec_lex(p) == lex_combine(
            seq![scan_number(p)->Ok_0.0],
            spec_lex(p.skip(scan_number(p)->Ok_0.1 as int)),
        ),
{
    let k = scan_number(p)->Ok_0.1 as int;
    lemma_scan_number_append(p, e);
    assert((p + e)[0] == p[0]);
    assert((p + e).skip(k) =~= p.skip(k) + e);
}

proof fn lemma_unfold_ident(p: Seq<char>, e: Seq<char>)
    requires
        p.len() > 0,
        spec_is_identifier(p[0]),
        scan_ident_len(p) is Ok,
        scan_ident_len(p)->Ok_0 < p.len(),
    ensures
        spec_lex(p + e) == lex_combine(
            seq![ident_token(p.subrange(0, scan_ident_len(p)->Ok_0 as int))],
            spec_lex(p.skip(scan_ident_len(p)->Ok_0 as int) + e),
        ),
        spec_lex(p) == lex_combine(
            seq![ident_token(p.subrange(0, scan_ident_len(p)->Ok_0 as int))],
            spec_lex(p.skip(scan_ident_len(p)->Ok_0 as int)),
        ),
{
    let l = scan_ident_len(p)->Ok_0 as int;
    lemma_scan_ident_len_append(p, e);
    assert((p + e)[0] == p[0]);
    assert((p + e).skip(l) =~= p.skip(l) + e);
    assert((p + e).subrange(0, l) =~= p.subrange(0, l));
}

/// Lexing is compositional at line boundaries: text that ends on a newline
/// and lexes successfully contributes its tokens, and what follows is lexed
/// independently after it.
pub proof fn lemma_lex_append(p: Seq<char>, q: Seq<char>)
    requires
        p.len() > 0,
        p.last() == '\n',
        spec_lex(p) is Ok,
    ensures
        spec_lex(p + q) == lex_combine(spec_lex(p)->Ok_0, spec_lex(q)),
    decreases p.len(),
{
    let c = p[0];
    if c == '#' {
        lemma_comment_len_le(p);
        let cl = comment_len(p) as int;
        assert(cl < p.len()) by {
            if cl == p.len() {
                assert(p[p.len() - 1] != '\n');
            }
        }
        lemma_unfold_comment(p, q);
        let p2 = p.skip(cl);
        assert(p2.last() == p.last());
        assert(spec_lex(p) == spec_lex(p2));
        lemma_lex_append(p2, q);
    } else if c == ' ' || c == '\n' || c == '=' {
        lemma_unfold_single(p, q);
        let toks = single_char_tokens(c);
        let p2 = p.skip(1);
        if p2.len() == 0 {
            assert(c == '\n');
            assert(spec_lex(p2) == Ok::<Seq<SpecToken>, Error>(Seq::empty()));
            assert(p2 + q =~= q);
            assert(toks + Seq::<SpecToken>::empty() =~= toks);
        } else {
            assert(p2.last() == p.last());
            lemma_lex_append(p2, q);
            lemma_combine_assoc(toks, spec_lex(p2)->Ok_0, spec_lex(q));
        }
    } else if c == '"' {
        match scan_string(p) {
            Ok((text, k0)) => {
                let k = k0 as int;
                lemma_scan_string_ends_inside(p);
                lemma_unfold_string(p, q);
                let p2 = p.skip(k);
                assert(p2.last() == p.last());
                lemma_lex_append(p2, q);
                lemma_combine_assoc(seq![SpecToken::String(text)], spec_lex(p2)->Ok_0, spec_lex(q));
            },
            Err(_) => {
                assert(spec_lex(p) is Err);
            },
        }
    } else if spec_is_digit(c) || c == '-' || c == '.' {
        match scan_number(p) {
            Ok((tk, k0)) => {
                let k = k0 as int;
                assert(!spec_is_digit(p.last()) && p.last() != '.');
                lemma_scan_number_ends_inside(p);
                lemma_unfold_number(p, q);
                let p2 = p.skip(k);
                assert(p2.last() == p.last());
                lemma_lex_append(p2, q);
                lemma_combine_assoc(seq![tk], spec_lex(p2)->Ok_0, spec_lex(q));
            },
            Err(_) => {
                assert(spec_lex(p) is Err);
            },
        }
    } else if spec_is_identifier(c) {
        match scan_ident_len(p) {
            Ok(l0) => {
                let l = l0 as int;
                assert(!spec_is_identifier(p.last()));
                lemma_scan_ident_ends_inside(p);
                lemma_unfold_ident(p, q);
                let t = ident_token(p.subrange(0, l));
                let p2 = p.skip(l);
                assert(p2.last() == p.last());
                lemma_lex_append(p2, q);
                lemma_combine_assoc(seq![t], spec_lex(p2)->Ok_0, spec_lex(q));
            },
            Err(_) => {
                assert(spec_lex(p) is Err);
            },
        }
    } else {
        assert(spec_lex(p) is Err);
    }
}

/// Text that ends on a newline and lexes successfully produces a token run
/// that ends on a newline token.
pub proof fn lemma_lex_trailing_newline(p: Seq<char>)
    requires
        p.len() > 0,
        p.last() == '\n',
        spec_lex(p) is Ok,
    ensures
        spec_lex(p)->Ok_0.len() > 0,
        spec_lex(p)->Ok_0.last() is NewLine,
    decreases p.len(),
{
    let c = p[0];
    if c == '#' {
        lemma_comment_len_le(p);
        let cl = comment_len(p) as int;
        assert(cl < p.len()) by {
            if cl == p.len() {
                assert(p[p.len() - 1] != '\n');
            }
        }
        let p2 = p.skip(cl);
        assert(p2.last() == p.last());
        assert(spec_lex(p) == spec_lex(p2));
        lemma_lex_trailing_newline(p2);
    } else if c == ' ' || c == '\n' || c == '=' {
        lemma_unfold_single(p, Seq::empty());
        let toks = single_char_tokens(c);
        let p2 = p.skip(1);
        if p2.len() == 0 {
            assert(c == '\n');
            assert(spec_lex(p2) == Ok::<Seq<SpecToken>, Error>(Seq::empty()));
            assert(spec_lex(p)->Ok_0 =~= seq![SpecToken::NewLine]);
        } else {
            assert(p2.last() == p.last());
            lemma_lex_trailing_newline(p2);
            let t2 = spec_lex(p2)->Ok_0;
            assert((toks + t2).last() == t2.last());
        }
    } else if c == '"' {
        match scan_string(p) {
            Ok((text, k0)) => {
                let k = k0 as int;
                lemma_scan_string_ends_inside(p);
                lemma_unfold_string(p, Seq::empty());
                let p2 = p.skip(k);
                assert(p2.last() == p.last());
                lemma_lex_trailing_newline(p2);
                let t2 = spec_lex(p2)->Ok_0;
                assert((seq![SpecToken::String(text)] + t2).last() == t2.last());
            },
            Err(_) => {},
        }
    } else if spec_is_digit(c) || c == '-' || c == '.' {
        match scan_number(p) {
            Ok((tk, k0)) => {
                let k = k0 as int;
                assert(!spec_is_digit(p.last()) && p.last() != '.');
                lemma_scan_number_ends_inside(p);
                lemma_unfold_number(p, Seq::empty());
                let p2 = p.skip(k);
                assert(p2.last() == p.last());
                lemma_lex_trailing_newline(p2);
                let t2 = spec_lex(p2)->Ok_0;
                assert((seq![tk] + t2).last() == t2.last());
            },
            Err(_) => {},
        }
    } else if spec_is_identifier(c) {
        match scan_ident_len(p) {
            Ok(l0) => {
                let l = l0 as int;
                assert(!spec_is_identifier(p.last()));
                lemma_scan_ident_ends_inside(p);
                lemma_unfold_ident(p, Seq::empty());
                let t = ident_token(p.subrange(0, l));
                let p2 = p.skip(l);
                assert(p2.last() == p.last());
                lemma_lex_trailing_newline(p2);
                let t2 = spec_lex(p2)->Ok_0;
                assert((seq![t] + t2).last() == t2.last());
            },
            Err(_) => {},
        }
    }
}

/// A comment standing at a token boundary/// A comment standing at a token boundary is skipped whole: its text up to
/// the next newline produces no token.
proof fn lemma_comment_skipped(c: Seq<char>, q: Seq<char>)
    requires
        c.len() > 0,
        c[0] == '#',
        forall|j: int| 0 <= j < c.len() ==> c[j] != '\n',
        q.len() == 0 || q[0] == '\n',
    ensures
        comment_len(c + q) == c.len(),
        spec_lex(c + q) == spec_lex(q),
{
    let cq = c + q;
    assert(cq[0] == '#');
    lemma_comment_len_le(c);
    assert(comment_len(c) == c.len()) by {
        if comment_len(c) < c.len() {
            assert(c[comment_len(c) as int] != '\n');
        }
    }
    lemma_comment_len_append(c, q);
    assert(comment_len(q) == 0);
    assert(cq.skip(c.len() as int) =~= q);
    assert(spec_lex(cq) == spec_lex(q));
}

/// A comment is invisible to the scan: where the text before it stops at a
/// token boundary (it is empty or ends on a space, a newline or a closing
/// quote) and what follows starts on a newline or ends the input, striking
/// the comment leaves the token sequence unchanged.
pub proof fn lemma_comment_invisible_lex(p: Seq<char>, c: Seq<char>, q: Seq<char>)
    requires
        p.len() == 0 || ((p.last() == ' ' || p.last() == '\n' || p.last() == '"') && spec_lex(p)
            is Ok),
        c.len() > 0,
        c[0] == '#',
        forall|j: int| 0 <= j < c.len() ==> c[j] != '\n',
        q.len() == 0 || q[0] == '\n',
    ensures
        spec_lex(p + c + q) == spec_lex(p + q),
    decreases p.len(), 1int,
{
    let a = p + c + q;
    let b = p + q;
    if p.len() == 0 {
        assert(a =~= c + q);
        assert(b =~= q);
        lemma_comment_skipped(c, q);
    } else if p[0] == '#' {
        assert(a =~= p + (c + q));
        let ca = c + q;
        lemma_comment_len_le(p);
        let cl = comment_len(p) as int;
        if cl < p.len() {
            lemma_unfold_comment(p, ca);
            lemma_unfold_comment(p, q);
            let p2 = p.skip(cl);
            assert(p2.last() == p.last());
            assert(spec_lex(p) == spec_lex(p2));
            lemma_comment_invisible_lex(p2, c, q);
            assert(p2 + ca =~= p2 + c + q);
        } else {
            lemma_comment_skipped(c, q);
            lemma_comment_len_append(p, ca);
            lemma_comment_len_append(p, q);
            assert(comment_len(q) == 0);
            assert(a.skip(p.len() + c.len() as int) =~= q);
            assert(b.skip(p.len() as int) =~= q);
            assert(spec_lex(a) == spec_lex(q));
            assert(spec_lex(b) == spec_lex(q));
        }
    } else {
        lemma_comment_invisible_step(p, c, q);
    }
}

/// The inductive step of [`lemma_comment_invisible_lex`] for a prefix that
/// starts with a token rather than a comment.
#[verifier::rlimit(100)]
#[verifier::spinoff_prover]
proof fn lemma_comment_invisible_step(p: Seq<char>, c: Seq<char>, q: Seq<char>)
    requires
        p.len() > 0,
        p[0] != '#',
        (p.last() == ' ' || p.last() == '\n' || p.last() == '"') && spec_lex(p) is Ok,
        c.len() > 0,
        c[0] == '#',
        forall|j: int| 0 <= j < c.len() ==> c[j] != '\n',
        q.len() == 0 || q[0] == '\n',
    ensures
        spec_lex(p + c + q) == spec_lex(p + q),
    decreases p.len(), 0int,
{
    let a = p + c + q;
    let b = p + q;
    assert(a =~= p + (c + q));
    let ca = c + q;
    let x = p[0];
    if x == ' ' || x == '\n' || x == '=' {
        lemma_unfold_single(p, ca);
        lemma_unfold_single(p, q);
        let p2 = p.skip(1);
        if p2.len() > 0 {
            assert(p2.last() == p.last());
        }
        lemma_comment_invisible_lex(p2, c, q);
        assert(p2 + ca =~= p2 + c + q);
    } else if x == '"' {
        match scan_string(p) {
            Ok((text, k0)) => {
                let k = k0 as int;
                lemma_unfold_string(p, ca);
                lemma_unfold_string(p, q);
                let p2 = p.skip(k);
                if p2.len() > 0 {
                    assert(p2.last() == p.last());
                }
                lemma_comment_invisible_lex(p2, c, q);
                assert(p2 + ca =~= p2 + c + q);
            },
            Err(_) => {
                assert(spec_lex(p) is Err);
            },
        }
    } else if spec_is_digit(x) || x == '-' || x == '.' {
        match scan_number(p) {
            Ok((tk, k0)) => {
                let k = k0 as int;
                assert(!spec_is_digit(p.last()) && p.last() != '.');
                lemma_scan_number_ends_inside(p);
                lemma_unfold_number(p, ca);
                lemma_unfold_number(p, q);
                let p2 = p.skip(k);
                assert(p2.last() == p.last());
                lemma_comment_invisible_lex(p2, c, q);
                assert(p2 + ca =~= p2 + c + q);
            },
            Err(_) => {
                assert(spec_lex(p) is Err);
            },
        }
    } else if spec_is_identifier(x) {
        match scan_ident_len(p) {
            Ok(l0) => {
                let l = l0 as int;
                assert(!spec_is_identifier(p.last()));
                lemma_scan_ident_ends_inside(p);
                lemma_unfold_ident(p, ca);
                lemma_unfold_ident(p, q);
                let p2 = p.skip(l);
                assert(p2.last() == p.last());
                lemma_comment_invisible_lex(p2, c, q);
                assert(p2 + ca =~= p2 + c + q);
            },
            Err(_) => {
                assert(spec_lex(p) is Err);
            },
        }
    } else {
        assert(spec_lex(p) is Err);
    }
}

} // verus!




