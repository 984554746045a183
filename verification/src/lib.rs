//! A verified parser for a restricted, line-oriented configuration format:
//! `# comment` lines, blank lines, and `identifier = value` assignments,
//! where a value is a double-quoted string, a signed integer, a boolean
//! literal, or a decimal floating-point number.
//!
//! The pipeline has two stages: [`lexer::lex`] turns raw text into a flat
//! token sequence, and [`parser::parse_tokens`] turns that sequence into a
//! key-to-value mapping. [`parse`] composes the two.

use vstd::prelude::*;

pub mod lexer;
pub mod parser;
pub mod token;

verus! {

/// A failure of the whole pipeline: either a lexical failure from the
/// tokenizer or a structural failure from the token-mapper.
#[derive(Debug, PartialEq)]
pub enum ParseErr {
    Lexical(lexer::Error),
    Structure(parser::Error),
}

/// The mapping (or the failure) a character sequence denotes: the token
/// sequence of [`lexer::spec_lex`], handed to [`parser::spec_build`].
pub open spec fn spec_parse(cs: Seq<char>) -> Result<
    Map<Seq<char>, parser::SpecValue>,
    ParseErr,
> {
    match lexer::spec_lex(cs) {
        Ok(ts) => match parser::spec_build(ts) {
            Ok(m) => Ok(m),
            Err(e) => Err(ParseErr::Structure(e)),
        },
        Err(e) => Err(ParseErr::Lexical(e)),
    }
}

/// Parses a whole document: tokenize, then map. The result is exactly what
/// [`spec_parse`] says of the input text, so equal inputs always yield
/// identical mappings, and a failing line fails the whole document with no
/// partial result.
pub fn parse(input: &str) -> (r: Result<parser::Document, ParseErr>)
    ensures
        match r {
            Ok(doc) => doc.wf() && spec_parse(input@) == Ok::<
                Map<Seq<char>, parser::SpecValue>,
                ParseErr,
            >(doc@),
            Err(e) => spec_parse(input@) == Err::<Map<Seq<char>, parser::SpecValue>, ParseErr>(e),
        },
{
    let tokens = match lexer::lex(input) {
        Ok(t) => t,
        Err(e) => {
            return Err(ParseErr::Lexical(e));
        },
    };
    match parser::parse_tokens(tokens.as_slice()) {
        Ok(doc) => Ok(doc),
        Err(e) => Err(ParseErr::Structure(e)),
    }
}

// ---------------------------------------------------------------------------
// Laws of the whole pipeline.
// ---------------------------------------------------------------------------

/// Comments never affect the resulting mapping: striking a comment (a `#`
/// and its text up to the next newline) leaves the outcome of a parse
/// unchanged, wherever it stands at a token boundary — as a full line (the
/// text before it ends on a newline), trailing after a value (the text
/// before it ends on a space or on a closing quote), or at the very start or
/// end of the document.
pub proof fn lemma_comment_invisible(p: Seq<char>, c: Seq<char>, q: Seq<char>)
    requires
        p.len() == 0 || ((p.last() == ' ' || p.last() == '\n' || p.last() == '"')
            && lexer::spec_lex(p) is Ok),
        c.len() > 0,
        c[0] == '#',
        forall|j: int| 0 <= j < c.len() ==> c[j] != '\n',
        q.len() == 0 || q[0] == '\n',
    ensures
        spec_parse(p + c + q) == spec_parse(p + q),
{
    lexer::lemma_comment_invisible_lex(p, c, q);
}

/// Blank lines and repeated newlines never affect the resulting mapping:
/// inserting one more newline after text that parses successfully and ends
/// on a newline (or at the very start of the document) leaves the outcome of
/// a parse unchanged.
pub proof fn lemma_blank_line_invisible(p: Seq<char>, q: Seq<char>)
    requires
        p.len() == 0 || (p.last() == '\n' && spec_parse(p) is Ok),
    ensures
        spec_parse(p + seq!['\n'] + q) == spec_parse(p + q),
{
    let nl = seq!['\n'];
    let nlq = nl + q;
    assert(nlq[0] == '\n');
    assert(nlq.skip(1) =~= q);
    assert(lexer::spec_lex(nlq) == lexer::lex_combine(
        seq![token::SpecToken::NewLine],
        lexer::spec_lex(q),
    ));
    if p.len() == 0 {
        assert(p + nl + q =~= nlq);
        assert(p + q =~= q);
        match lexer::spec_lex(q) {
            Ok(tq) => {
                assert((seq![token::SpecToken::NewLine] + tq).drop_first() =~= tq);
                assert(parser::spec_build(seq![token::SpecToken::NewLine] + tq)
                    == parser::spec_build(tq));
            },
            Err(_) => {},
        }
    } else {
        let tp = lexer::spec_lex(p)->Ok_0;
        lexer::lemma_lex_append(p, nlq);
        lexer::lemma_lex_append(p, q);
        assert(p + nl + q =~= p + nlq);
        match lexer::spec_lex(q) {
            Ok(tq) => {
                lexer::lemma_lex_trailing_newline(p);
                parser::lemma_newline_invisible_tokens(tp, tq, Map::empty());
                assert(tp + (seq![token::SpecToken::NewLine] + tq) =~= tp + seq![
                    token::SpecToken::NewLine,
                ] + tq);
            },
            Err(_) => {},
        }
    }
}

/// Round-trip shape at the level of whole documents: appending one
/// assignment line (text that lexes to `IDENT EQUAL VALUE NEWLINE`) to a
/// document that parses successfully yields a mapping that binds that key to
/// exactly the scalar of the value token.
pub proof fn lemma_assignment_round_trip(p: Seq<char>, s: Seq<char>, k: Seq<char>, v: token::SpecToken)
    requires
        p.len() == 0 || (p.last() == '\n' && spec_parse(p) is Ok),
        lexer::spec_lex(s) == Ok::<Seq<token::SpecToken>, lexer::Error>(
            seq![
                token::SpecToken::Ident(k),
                token::SpecToken::Equal,
                v,
                token::SpecToken::NewLine,
            ],
        ),
        parser::token_value(v) is Some,
    ensures
        spec_parse(p + s) is Ok,
        spec_parse(p + s)->Ok_0.contains_key(k),
        spec_parse(p + s)->Ok_0[k] == parser::token_value(v)->0,
{
    let stmt = seq![token::SpecToken::Ident(k), token::SpecToken::Equal, v, token::SpecToken::NewLine];
    assert(stmt.skip(4) =~= Seq::<token::SpecToken>::empty());
    assert(stmt.len() == 4 && stmt[0] == token::SpecToken::Ident(k) && stmt[1]
        == token::SpecToken::Equal && stmt[2] == v && stmt[3] == token::SpecToken::NewLine);
    assert forall|acc: Map<Seq<char>, parser::SpecValue>|
        parser::spec_build_from(stmt, acc) == Ok::<Map<Seq<char>, parser::SpecValue>, parser::Error>(
            acc.insert(k, parser::token_value(v)->0),
        ) by {
        let acc2 = acc.insert(k, parser::token_value(v)->0);
        assert(parser::spec_build_from(stmt.skip(4), acc2) == Ok::<
            Map<Seq<char>, parser::SpecValue>,
            parser::Error,
        >(acc2));
    }
    if p.len() == 0 {
        assert(p + s =~= s);
        assert(parser::spec_build_from(stmt, Map::empty()) == Ok::<
            Map<Seq<char>, parser::SpecValue>,
            parser::Error,
        >(Map::<Seq<char>, parser::SpecValue>::empty().insert(k, parser::token_value(v)->0)));
    } else {
        let tp = lexer::spec_lex(p)->Ok_0;
        lexer::lemma_lex_append(p, s);
        lexer::lemma_lex_trailing_newline(p);
        let m1 = parser::spec_build(tp)->Ok_0;
        parser::lemma_build_append(tp, stmt, Map::empty());
        assert(parser::spec_build_from(stmt, m1) == Ok::<
            Map<Seq<char>, parser::SpecValue>,
            parser::Error,
        >(m1.insert(k, parser::token_value(v)->0)));
    }
}

} // verus!



