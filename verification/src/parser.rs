//! The token-mapper: consumes the token sequence and produces the final
//! key-to-value mapping, owning the grammar and structural validation.
//!
//! [`spec_build`] is the mathematical state machine over the token sequence;
//! [`parse_tokens`] is the executable mapper, proved to return exactly what
//! [`spec_build`] says.

use crate::token::{str_eq, tokens_view, Decimal, SpecDecimal, SpecToken, Token};
use vstd::prelude::*;

verus! {

/// A structural failure: the token sequence does not match the assignment
/// grammar `(IDENT EQUAL VALUE (NEWLINE|EOF))*` with blank newlines skipped.
#[derive(Debug, PartialEq)]
pub enum Error {
    /// A token other than a newline or an identifier starts a statement.
    UnexpectedToken,
    /// The token after an identifier is not `=`, or the input ends there.
    MissingEqual,
    /// The token after `=` is not a value, or the input ends there.
    MissingValue,
    /// The token after a value is neither a newline nor the end of input.
    MissingTerminator,
}

/// A resolved scalar, ready for storage in the output mapping. Identifiers
/// and `=` have no counterpart here: they are structural, not data-bearing.
#[derive(Debug, PartialEq)]
pub enum Value {
    String(String),
    Int(i64),
    Float(Decimal),
    Bool(bool),
}

/// Mathematical model of [`Value`].
pub enum SpecValue {
    String(Seq<char>),
    Int(int),
    Float(SpecDecimal),
    Bool(bool),
}

impl View for Value {
    type V = SpecValue;

    open spec fn view(&self) -> SpecValue {
        match self {
            Value::String(s) => SpecValue::String(s@),
            Value::Int(n) => SpecValue::Int(*n as int),
            Value::Float(d) => SpecValue::Float(d@),
            Value::Bool(b) => SpecValue::Bool(*b),
        }
    }
}

/// The scalar a value-bearing token resolves to; `None` for the structural
/// tokens.
pub open spec fn token_value(t: SpecToken) -> Option<SpecValue> {
    match t {
        SpecToken::String(s) => Some(SpecValue::String(s)),
        SpecToken::Int(n) => Some(SpecValue::Int(n)),
        SpecToken::Float(d) => Some(SpecValue::Float(d)),
        SpecToken::Bool(b) => Some(SpecValue::Bool(b)),
        SpecToken::Ident(_) => None,
        SpecToken::Equal => None,
        SpecToken::NewLine => None,
    }
}

// ---------------------------------------------------------------------------
// The document: a mapping from keys to values.
// ---------------------------------------------------------------------------

/// The mapping an entry list denotes: entries are folded in order, a later
/// assignment to a key overriding an earlier one.
pub open spec fn entries_map(s: Seq<(String, Value)>) -> Map<Seq<char>, SpecValue>
    decreases s.len(),
{
    if s.len() == 0 {
        Map::empty()
    } else {
        entries_map(s.drop_last()).insert(s.last().0@, s.last().1@)
    }
}

/// The complete key-to-value mapping produced by a successful parse. Viewed
/// as a `Map` from key characters to [`SpecValue`]; a repeated assignment to
/// the same key overwrites, so the last write wins.
#[derive(Debug)]
pub struct Document {
    entries: Vec<(String, Value)>,
}

impl View for Document {
    type V = Map<Seq<char>, SpecValue>;

    closed spec fn view(&self) -> Map<Seq<char>, SpecValue> {
        entries_map(self.entries@)
    }
}

/// Inside a well-formed document every key is held exactly once.
proof fn lemma_entries_map_props(s: Seq<(String, Value)>)
    requires
        forall|a: int, b: int| 0 <= a < b < s.len() ==> s[a].0@ != s[b].0@,
    ensures
        forall|k: Seq<char>|
            #[trigger] entries_map(s).contains_key(k) <==> exists|m: int|
                0 <= m < s.len() && s[m].0@ == k,
        forall|m: int| 0 <= m < s.len() ==> entries_map(s)[(#[trigger] s[m]).0@] == s[m].1@,
        entries_map(s).dom().finite(),
        entries_map(s).dom().len() == s.len(),
    decreases s.len(),
{
    if s.len() > 0 {
        let d = s.drop_last();
        lemma_entries_map_props(d);
        assert forall|k: Seq<char>| #[trigger]
            entries_map(s).contains_key(k) implies exists|m: int|
            0 <= m < s.len() && s[m].0@ == k by {
            if k == s.last().0@ {
                assert(s[s.len() - 1].0@ == k);
            } else {
                let m = choose|m: int| 0 <= m < d.len() && d[m].0@ == k;
                assert(s[m].0@ == k);
            }
        }
        assert forall|k: Seq<char>|
            (exists|m: int| 0 <= m < s.len() && s[m].0@ == k) implies #[trigger]
            entries_map(s).contains_key(k) by {
            let m = choose|m: int| 0 <= m < s.len() && s[m].0@ == k;
            if m < s.len() - 1 {
                assert(d[m].0@ == k);
            }
        }
        assert forall|m: int| 0 <= m < s.len() implies entries_map(s)[(#[trigger] s[m]).0@]
            == s[m].1@ by {
            if m < s.len() - 1 {
                assert(d[m] == s[m]);
                assert(s[m].0@ != s.last().0@);
                assert(entries_map(d)[d[m].0@] == d[m].1@);
            }
        }
        assert(!entries_map(d).dom().contains(s.last().0@));
        assert(entries_map(s).dom() =~= entries_map(d).dom().insert(s.last().0@));
    }
}

impl Document {
    /// Keys are pairwise distinct.
    pub closed spec fn wf(&self) -> bool {
        forall|a: int, b: int|
            0 <= a < b < self.entries@.len() ==> self.entries@[a].0@ != self.entries@[b].0@
    }

    /// The empty document.
    pub fn new() -> (r: Document)
        ensures
            r.wf(),
            r@ == Map::<Seq<char>, SpecValue>::empty(),
    {
        Document { entries: Vec::new() }
    }

    /// Binds `k` to `v`, overwriting any earlier binding of `k`.
    pub fn insert(&mut self, k: String, v: Value)
        requires
            old(self).wf(),
        ensures
            final(self).wf(),
            final(self)@ == old(self)@.insert(k@, v@),
    {
        let n = self.entries.len();
        let mut idx: usize = 0;
        loop
            invariant
                idx <= n,
                n == self.entries@.len(),
                *self == *old(self),
                forall|m: int| 0 <= m < idx ==> self.entries@[m].0@ != k@,
            ensures
                *self == *old(self),
                idx <= n,
                idx < n ==> self.entries@[idx as int].0@ == k@,
                idx == n ==> forall|m: int| 0 <= m < n ==> self.entries@[m].0@ != k@,
            decreases n - idx,
        {
            if idx == n {
                break;
            }
            let pair = &self.entries[idx];
            if str_eq(pair.0.as_str(), k.as_str()) {
                break;
            }
            idx = idx + 1;
        }
        if idx < n {
            proof {
                lemma_entries_map_update(self.entries@, idx as int, k@, v@);
            }
            let ghost before = self.entries@;
            self.entries[idx] = (k, v);
            proof {
                assert forall|a: int, b: int|
                    0 <= a < b < self.entries@.len() implies self.entries@[a].0@
                    != self.entries@[b].0@ by {
                    assert(before[a].0@ != before[b].0@);
                }
            }
        } else {
            let ghost before = self.entries@;
            self.entries.push((k, v));
            proof {
                assert(self.entries@.drop_last() =~= before);
            }
        }
    }

    /// Looks the key up; `None` exactly when no assignment bound it.
    pub fn get(&self, k: &str) -> (r: Option<&Value>)
        requires
            self.wf(),
        ensures
            match r {
                Some(v) => self@.contains_key(k@) && v@ == self@[k@],
                None => !self@.contains_key(k@),
            },
    {
        proof {
            lemma_entries_map_props(self.entries@);
        }
        let n = self.entries.len();
        let mut idx: usize = 0;
        while idx < n
            invariant
                idx <= n,
                n == self.entries@.len(),
                self.wf(),
                forall|m: int| 0 <= m < idx ==> self.entries@[m].0@ != k@,
                forall|kk: Seq<char>|
                    #[trigger] entries_map(self.entries@).contains_key(kk) <==> exists|m: int|
                        0 <= m < n && self.entries@[m].0@ == kk,
                forall|m: int|
                    0 <= m < n ==> entries_map(self.entries@)[(#[trigger] self.entries@[m]).0@]
                        == self.entries@[m].1@,
            decreases n - idx,
        {
            let pair = &self.entries[idx];
            if str_eq(pair.0.as_str(), k) {
                return Some(&pair.1);
            }
            idx = idx + 1;
        }
        None
    }

    /// The number of keys bound in the document.
    pub fn len(&self) -> (r: usize)
        requires
            self.wf(),
        ensures
            r == self@.dom().len(),
    {
        proof {
            lemma_entries_map_props(self.entries@);
        }
        self.entries.len()
    }
}

// ---------------------------------------------------------------------------
// The grammar check, as a mathematical state machine and as executable code.
// ---------------------------------------------------------------------------

/// The token-mapper as a mathematical function: from a statement start,
/// newlines are skipped; an identifier must be followed by `=`, one
/// value-bearing token, and a newline or the end of the sequence, which
/// binds the identifier in the accumulated mapping; anything else fails.
pub open spec fn spec_build_from(
    ts: Seq<SpecToken>,
    acc: Map<Seq<char>, SpecValue>,
) -> Result<Map<Seq<char>, SpecValue>, Error>
    decreases ts.len(),
{
    if ts.len() == 0 {
        Ok(acc)
    } else if ts[0] is NewLine {
        spec_build_from(ts.drop_first(), acc)
    } else if ts[0] is Ident {
        let k = ts[0]->Ident_0;
        if ts.len() < 2 || !(ts[1] is Equal) {
            Err(Error::MissingEqual)
        } else if ts.len() < 3 || token_value(ts[2]) is None {
            Err(Error::MissingValue)
        } else {
            let acc2 = acc.insert(k, token_value(ts[2])->0);
            if ts.len() == 3 {
                Ok(acc2)
            } else if ts[3] is NewLine {
                spec_build_from(ts.skip(4), acc2)
            } else {
                Err(Error::MissingTerminator)
            }
        }
    } else {
        Err(Error::UnexpectedToken)
    }
}

/// The mapping (or the structural failure) a token sequence denotes.
pub open spec fn spec_build(ts: Seq<SpecToken>) -> Result<Map<Seq<char>, SpecValue>, Error> {
    spec_build_from(ts, Map::empty())
}

/// Consumes the token sequence with a single forward cursor, no
/// backtracking, and produces the key-to-value mapping exactly as
/// [`spec_build`] describes: the whole mapping on success, only an error
/// otherwise, never a half-built document.
pub fn parse_tokens(list: &[Token]) -> (r: Result<Document, Error>)
    ensures
        match r {
            Ok(doc) => doc.wf() && spec_build(tokens_view(list@)) == Ok::<
                Map<Seq<char>, SpecValue>,
                Error,
            >(doc@),
            Err(e) => spec_build(tokens_view(list@)) == Err::<Map<Seq<char>, SpecValue>, Error>(e),
        },
{
    let ghost full = tokens_view(list@);
    let n = list.len();
    let mut doc = Document::new();
    let mut i: usize = 0;
    proof {
        assert(full.skip(0) =~= full);
    }
    while i < n
        invariant
            i <= n,
            n == list@.len(),
            full == tokens_view(list@),
            doc.wf(),
            spec_build(full) == spec_build_from(full.skip(i as int), doc@),
        decreases n - i,
    {
        let ghost rest = full.skip(i as int);
        assert(rest[0] == list@[i as int]@);
        match &list[i] {
            Token::NewLine => {
                proof {
                    assert(rest.drop_first() =~= full.skip(i + 1 as int));
                }
                i = i + 1;
            },
            Token::Ident(key) => {
                if i + 1 >= n {
                    return Err(Error::MissingEqual);
                }
                assert(rest[1] == list@[i + 1 as int]@);
                let is_equal = match &list[i + 1] {
                    Token::Equal => true,
                    _ => false,
                };
                if !is_equal {
                    return Err(Error::MissingEqual);
                }
                if i + 2 >= n {
                    return Err(Error::MissingValue);
                }
                assert(rest[2] == list@[i + 2 as int]@);
                let v: Value = match &list[i + 2] {
                    Token::Int(x) => Value::Int(*x),
                    Token::Float(d) => Value::Float(d.clone()),
                    Token::String(s) => Value::String(s.clone()),
                    Token::Bool(b) => Value::Bool(*b),
                    _ => {
                        return Err(Error::MissingValue);
                    },
                };
                assert(v@ == token_value(rest[2])->0);
                doc.insert(key.clone(), v);
                if i + 3 == n {
                    i = i + 3;
                } else {
                    assert(rest[3] == list@[i + 3 as int]@);
                    let is_newline = match &list[i + 3] {
                        Token::NewLine => true,
                        _ => false,
                    };
                    if !is_newline {
                        return Err(Error::MissingTerminator);
                    }
                    proof {
                        assert(rest.skip(4) =~= full.skip(i + 4 as int));
                    }
                    i = i + 4;
                }
            },
            _ => {
                return Err(Error::UnexpectedToken);
            },
        }
    }
    proof {
        assert(full.skip(n as int) =~= Seq::<SpecToken>::empty());
    }
    Ok(doc)
}

// ---------------------------------------------------------------------------
// Laws of the token-mapper.
// ---------------------------------------------------------------------------

/// Building is compositional at statement boundaries: a token run that ends
/// on a newline and builds successfully contributes its bindings, and the
/// rest of the sequence continues from them.
pub proof fn lemma_build_append(ts1: Seq<SpecToken>, ts2: Seq<SpecToken>, acc: Map<Seq<char>, SpecValue>)
    requires
        ts1.len() > 0,
        ts1.last() is NewLine,
        spec_build_from(ts1, acc) is Ok,
    ensures
        spec_build_from(ts1 + ts2, acc) == spec_build_from(ts2, spec_build_from(ts1, acc)->Ok_0),
    decreases ts1.len(),
{
    let whole = ts1 + ts2;
    assert(whole[0] == ts1[0]);
    if ts1[0] is NewLine {
        let t1 = ts1.drop_first();
        assert(spec_build_from(ts1, acc) == spec_build_from(t1, acc));
        assert(spec_build_from(whole, acc) == spec_build_from(whole.drop_first(), acc));
        assert(whole.drop_first() =~= t1 + ts2);
        if t1.len() == 0 {
            assert(whole.drop_first() =~= ts2);
            assert(spec_build_from(t1, acc) == Ok::<Map<Seq<char>, SpecValue>, Error>(acc));
        } else {
            assert(t1.last() == ts1.last());
            lemma_build_append(t1, ts2, acc);
        }
    } else if ts1[0] is Ident {
        let k = ts1[0]->Ident_0;
        // A successful build of `ts1` rules the failing shapes out, and the
        // newline at the end rules out the statement that ends with its
        // value at the end of the sequence.
        assert(ts1.len() >= 2 && ts1[1] is Equal);
        assert(ts1.len() >= 3 && token_value(ts1[2]) is Some);
        assert(!(token_value(ts1.last()) is Some));
        assert(ts1.len() != 3);
        assert(ts1[3] is NewLine);
        let acc2 = acc.insert(k, token_value(ts1[2])->0);
        assert(whole[1] == ts1[1] && whole[2] == ts1[2] && whole[3] == ts1[3]);
        let t1 = ts1.skip(4);
        assert(spec_build_from(ts1, acc) == spec_build_from(t1, acc2));
        assert(whole.len() >= 4 && whole.len() != 3);
        assert(spec_build_from(whole, acc) == spec_build_from(whole.skip(4), acc2));
        assert(whole.skip(4) =~= t1 + ts2);
        if t1.len() == 0 {
            assert(whole.skip(4) =~= ts2);
            assert(spec_build_from(t1, acc2) == Ok::<Map<Seq<char>, SpecValue>, Error>(acc2));
        } else {
            assert(t1.last() == ts1.last());
            lemma_build_append(t1, ts2, acc2);
        }
    } else {
        assert(spec_build_from(ts1, acc) is Err);
    }
}

/// A blank line is invisible to the mapping: a newline token standing at a
/// statement boundary can be struck without changing the outcome.
pub proof fn lemma_newline_invisible_tokens(
    ts1: Seq<SpecToken>,
    ts2: Seq<SpecToken>,
    acc: Map<Seq<char>, SpecValue>,
)
    requires
        ts1.len() == 0 || (ts1.last() is NewLine && spec_build_from(ts1, acc) is Ok),
    ensures
        spec_build_from(ts1 + seq![SpecToken::NewLine] + ts2, acc) == spec_build_from(
            ts1 + ts2,
            acc,
        ),
{
    if ts1.len() == 0 {
        assert(ts1 + seq![SpecToken::NewLine] + ts2 =~= seq![SpecToken::NewLine] + ts2);
        assert((seq![SpecToken::NewLine] + ts2).drop_first() =~= ts2);
        assert(ts1 + ts2 =~= ts2);
    } else {
        let m1 = spec_build_from(ts1, acc)->Ok_0;
        lemma_build_append(ts1, seq![SpecToken::NewLine] + ts2, acc);
        assert(ts1 + seq![SpecToken::NewLine] + ts2 =~= ts1 + (seq![SpecToken::NewLine] + ts2));
        assert((seq![SpecToken::NewLine] + ts2).drop_first() =~= ts2);
        lemma_build_append(ts1, ts2, acc);
    }
}

/// Round-trip shape of an assignment: appending the statement `k = v` binds
/// `k` to exactly the scalar of the value token `v`, overriding any earlier
/// binding of `k` (the last write wins).
pub proof fn lemma_assignment_binds(ts1: Seq<SpecToken>, k: Seq<char>, v: SpecToken)
    requires
        ts1.len() == 0 || (ts1.last() is NewLine && spec_build(ts1) is Ok),
        token_value(v) is Some,
    ensures
        spec_build(ts1 + seq![SpecToken::Ident(k), SpecToken::Equal, v]) == Ok::<
            Map<Seq<char>, SpecValue>,
            Error,
        >(spec_build(ts1)->Ok_0.insert(k, token_value(v)->0)),
{
    let stmt = seq![SpecToken::Ident(k), SpecToken::Equal, v];
    if ts1.len() == 0 {
        assert(ts1 + stmt =~= stmt);
        assert(spec_build(ts1) == Ok::<Map<Seq<char>, SpecValue>, Error>(Map::empty()));
    } else {
        lemma_build_append(ts1, stmt, Map::empty());
    }
}

/// Replacing the one entry that holds a key denotes the same mapping as
/// inserting the new binding.
proof fn lemma_entries_map_update(s: Seq<(String, Value)>, idx: int, k: Seq<char>, v: SpecValue)
    requires
        forall|a: int, b: int| 0 <= a < b < s.len() ==> s[a].0@ != s[b].0@,
        0 <= idx < s.len(),
        s[idx].0@ == k,
    ensures
        forall|p: (String, Value)|
            p.0@ == k && p.1@ == v ==> entries_map(s.update(idx, p)) == entries_map(s).insert(k, v),
    decreases s.len(),
{
    assert forall|p: (String, Value)|
        p.0@ == k && p.1@ == v implies entries_map(s.update(idx, p)) == entries_map(s).insert(
        k,
        v,
    ) by {
        let u = s.update(idx, p);
        if idx == s.len() - 1 {
            assert(u.drop_last() =~= s.drop_last());
            assert(entries_map(u) == entries_map(s.drop_last()).insert(k, v));
            assert(entries_map(s.drop_last()).insert(s.last().0@, s.last().1@).insert(k, v)
                =~= entries_map(s.drop_last()).insert(k, v));
        } else {
            let d = s.drop_last();
            lemma_entries_map_update(d, idx, k, v);
            assert(u.drop_last() =~= d.update(idx, p));
            assert(u.last() == s.last());
            assert(s.last().0@ != k);
            assert(entries_map(u) == entries_map(d).insert(k, v).insert(s.last().0@, s.last().1@));
            assert(entries_map(d).insert(k, v).insert(s.last().0@, s.last().1@) =~= entries_map(
                d,
            ).insert(s.last().0@, s.last().1@).insert(k, v));
        }
    }
}

} // verus!
