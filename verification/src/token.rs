//! The lexical data model: tokens produced by the tokenizer and the exact
//! decimal payload used for floating-point literals.

use vstd::prelude::*;
use vstd::string::StrSliceExecFns;

verus! {

/// The decimal payload of a floating-point literal, kept exactly as scanned:
/// an optional leading sign, the digits before the dot, and the digits after
/// the dot, each digit stored as its numeric value (0 through 9).
///
/// The mathematical value is
/// `(-1)^neg * (int_digits . frac_digits)` read as a decimal numeral.
/// Keeping the digits themselves avoids any rounding or overflow: callers
/// that want a machine float convert at the edge.
#[derive(Debug, PartialEq)]
pub struct Decimal {
    pub neg: bool,
    pub int_digits: Vec<u8>,
    pub frac_digits: Vec<u8>,
}

/// Mathematical model of [`Decimal`]: the same three components over `Seq`.
pub struct SpecDecimal {
    pub neg: bool,
    pub int_digits: Seq<u8>,
    pub frac_digits: Seq<u8>,
}

impl SpecDecimal {
    /// A well-formed decimal has only digit values below ten and carries at
    /// least one digit somewhere.
    pub open spec fn wf(self) -> bool {
        &&& forall|i: int| 0 <= i < self.int_digits.len() ==> self.int_digits[i] < 10
        &&& forall|i: int| 0 <= i < self.frac_digits.len() ==> self.frac_digits[i] < 10
        &&& self.int_digits.len() + self.frac_digits.len() >= 1
    }
}

impl View for Decimal {
    type V = SpecDecimal;

    open spec fn view(&self) -> SpecDecimal {
        SpecDecimal { neg: self.neg, int_digits: self.int_digits@, frac_digits: self.frac_digits@ }
    }
}

impl Clone for Decimal {
    fn clone(&self) -> (r: Self)
        ensures
            r@ == self@,
    {
        Decimal {
            neg: self.neg,
            int_digits: self.int_digits.clone(),
            frac_digits: self.frac_digits.clone(),
        }
    }
}

/// An atomic lexical unit: a scalar literal, a bare-word identifier, or one
/// of the two structural symbols. `true` and `false` are resolved to
/// `Bool` during tokenization, so no identifier token ever carries them.
#[derive(Debug, PartialEq)]
pub enum Token {
    String(String),
    Int(i64),
    Float(Decimal),
    Bool(bool),
    Ident(String),
    Equal,
    NewLine,
}

/// Mathematical model of [`Token`], over `Seq<char>`, `int` and
/// [`SpecDecimal`].
pub enum SpecToken {
    String(Seq<char>),
    Int(int),
    Float(SpecDecimal),
    Bool(bool),
    Ident(Seq<char>),
    Equal,
    NewLine,
}

impl View for Token {
    type V = SpecToken;

    open spec fn view(&self) -> SpecToken {
        match self {
            Token::String(s) => SpecToken::String(s@),
            Token::Int(n) => SpecToken::Int(*n as int),
            Token::Float(d) => SpecToken::Float(d@),
            Token::Bool(b) => SpecToken::Bool(*b),
            Token::Ident(s) => SpecToken::Ident(s@),
            Token::Equal => SpecToken::Equal,
            Token::NewLine => SpecToken::NewLine,
        }
    }
}

/// The view of a token sequence, token by token.
pub open spec fn tokens_view(ts: Seq<Token>) -> Seq<SpecToken> {
    ts.map_values(|t: Token| t@)
}

/// Whether `c` may occur in an identifier: an ASCII letter or an underscore,
/// and explicitly not a digit.
pub open spec fn spec_is_identifier(c: char) -> bool {
    (65 <= c as u32 && c as u32 <= 90)  // 'A' ..= 'Z'
    || (97 <= c as u32 && c as u32 <= 122)  // 'a' ..= 'z'
    || c == '_'
}

/// The identifier-character predicate shared by the tokenizer and the
/// token-mapper.
pub fn is_identifier(c: char) -> (r: bool)
    ensures
        r == spec_is_identifier(c),
{
    let u = c as u32;
    (65 <= u && u <= 90) || (97 <= u && u <= 122) || c == '_'
}

/// Whether `c` is an ASCII decimal digit.
pub open spec fn spec_is_digit(c: char) -> bool {
    48 <= c as u32 && c as u32 <= 57  // '0' ..= '9'
}

/// Executable form of [`spec_is_digit`].
pub(crate) fn is_ascii_digit(c: char) -> (r: bool)
    ensures
        r == spec_is_digit(c),
{
    let u = c as u32;
    48 <= u && u <= 57
}

/// The numeric value of an ASCII digit character.
pub open spec fn spec_digit_val(c: char) -> u8 {
    (c as u32 - 48) as u8
}

/// Character-by-character string comparison.
pub(crate) fn str_eq(a: &str, b: &str) -> (r: bool)
    ensures
        r == (a@ == b@),
{
    let na = a.unicode_len();
    let nb = b.unicode_len();
    if na != nb {
        return false;
    }
    let mut i: usize = 0;
    while i < na
        invariant
            i <= na,
            na == a@.len(),
            na == b@.len(),
            forall|m: int| 0 <= m < i ==> a@[m] == b@[m],
        decreases na - i,
    {
        if a.get_char(i) != b.get_char(i) {
            return false;
        }
        i = i + 1;
    }
    proof {
        assert(a@ =~= b@);
    }
    true
}

/// Skipping twice is skipping once by the sum.
pub proof fn lemma_skip_skip<A>(s: Seq<A>, a: int, b: int)
    requires
        0 <= a,
        0 <= b,
        a + b <= s.len(),
    ensures
        s.skip(a).skip(b) == s.skip(a + b),
{
    assert(s.skip(a).skip(b) =~= s.skip(a + b));
}

} // verus!
