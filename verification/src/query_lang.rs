//! Query-language pieces shared by the parser and its callers: the implicit
//! operator, parse errors, and the classification and unescaping of raw
//! term text.
use vstd::prelude::*;
use crate::text::{chars_of, string_from_chars};

verus! {

/// The operator inserted between adjacent expressions that lack an
/// explicit boolean keyword: `beer wine` reads as `beer AND wine` with
/// `And` and as `beer OR wine` with `Or`.
#[derive(Clone, Copy, Debug, PartialEq, Eq, Structural)]
pub enum ImplicitOp {
    And,
    Or,
}

/// An error produced during query parsing; `pos` is a byte offset.
#[derive(Debug, PartialEq, Eq)]
pub enum ParseError {
    Expected { expected: String, pos: usize, found: String },
    EmptyAlternatives { pos: usize },
    EmptyPhrase { pos: usize },
    NumberOutOfRange { text: String, pos: usize },
    WildcardInRangeBound { text: String, pos: usize },
    BoostOutOfRange { text: String, pos: usize },
}

/// One piece of a wildcard term.
#[derive(Debug, PartialEq, Eq)]
pub enum WildcardPart {
    /// Literal characters.
    Literal(String),
    /// `*`: any run of characters.
    Any,
    /// `?`: exactly one character.
    Single,
}

/// A raw term, classified.
#[derive(Debug, PartialEq, Eq)]
pub enum ClassifiedTerm {
    /// A plain term, with `\*` and `\?` unescaped.
    Term(String),
    /// A term with at least one unescaped `*` or `?`.
    Wildcard(Vec<WildcardPart>),
}

/// The model of a wildcard piece.
pub enum PartModel {
    Literal(Seq<char>),
    Any,
    Single,
}

/// The model of a wildcard piece.
pub open spec fn part_model(p: WildcardPart) -> PartModel {
    match p {
        WildcardPart::Literal(s) => PartModel::Literal(s@),
        WildcardPart::Any => PartModel::Any,
        WildcardPart::Single => PartModel::Single,
    }
}

/// `c` is a wildcard metacharacter.
pub open spec fn is_wild(c: char) -> bool {
    c == '*' || c == '?'
}

/// Reading `s` from index `i`, an unescaped `*` or `?` occurs. Only `\*`
/// and `\?` are escapes; any other backslash is an ordinary character.
pub open spec fn unescaped_wildcard_from(s: Seq<char>, i: int) -> bool
    decreases s.len() - i,
{
    if i < 0 || i >= s.len() {
        false
    } else if s[i] == '\\' && i + 1 < s.len() && is_wild(s[i + 1]) {
        unescaped_wildcard_from(s, i + 2)
    } else if is_wild(s[i]) {
        true
    } else {
        unescaped_wildcard_from(s, i + 1)
    }
}

/// Some piece is `*` or `?`.
pub open spec fn has_wild_part(parts: Seq<PartModel>) -> bool {
    exists|k: int| 0 <= k < parts.len() && !(#[trigger] parts[k] is Literal)
}

/// The pieces of a term hold a `*` or `?` exactly when the term holds an
/// unescaped one: a wildcard term always has a wildcard piece.
pub proof fn lemma_wildcard_has_wild_part(s: Seq<char>, i: int, lit: Seq<char>)
    requires
        0 <= i,
    ensures
        has_wild_part(parts_from(s, i, lit)) == unescaped_wildcard_from(s, i),
    decreases s.len() - i,
{
    let r = parts_from(s, i, lit);
    if i >= s.len() {
        assert(!has_wild_part(flush(lit)));
    } else if s[i] == '\\' && i + 1 < s.len() && is_wild(s[i + 1]) {
        lemma_wildcard_has_wild_part(s, i + 2, lit.push(s[i + 1]));
    } else if s[i] == '*' || s[i] == '?' {
        let f = flush(lit);
        let w = if s[i] == '*' { PartModel::Any } else { PartModel::Single };
        assert(r == f + seq![w] + parts_from(s, i + 1, Seq::empty()));
        assert(r[f.len() as int] == w);
    } else {
        lemma_wildcard_has_wild_part(s, i + 1, lit.push(s[i]));
    }
}

/// The pending literal as a list of pieces: nothing when it is empty.
pub open spec fn flush(lit: Seq<char>) -> Seq<PartModel> {
    if lit.len() == 0 { Seq::empty() } else { seq![PartModel::Literal(lit)] }
}

/// The wildcard pieces of `s` from index `i`, with `lit` the literal
/// collected so far: `*` and `?` end the literal and stand for themselves,
/// `\*` and `\?` are literal `*` and `?`, and every other character
/// (a backslash before anything else too) is literal.
pub open spec fn parts_from(s: Seq<char>, i: int, lit: Seq<char>) -> Seq<PartModel>
    decreases s.len() - i,
{
    if i < 0 || i >= s.len() {
        flush(lit)
    } else if s[i] == '\\' && i + 1 < s.len() && is_wild(s[i + 1]) {
        parts_from(s, i + 2, lit.push(s[i + 1]))
    } else if s[i] == '*' {
        flush(lit) + seq![PartModel::Any] + parts_from(s, i + 1, Seq::empty())
    } else if s[i] == '?' {
        flush(lit) + seq![PartModel::Single] + parts_from(s, i + 1, Seq::empty())
    } else {
        parts_from(s, i + 1, lit.push(s[i]))
    }
}

/// `s` with `\*` turned into `*` and `\?` into `?`; everything else stays.
pub open spec fn unescape_wild(s: Seq<char>) -> Seq<char>
    decreases s.len(),
{
    if s.len() == 0 {
        s
    } else if s[0] == '\\' && s.len() > 1 && is_wild(s[1]) {
        seq![s[1]] + unescape_wild(s.drop_first().drop_first())
    } else {
        seq![s[0]] + unescape_wild(s.drop_first())
    }
}

/// `s` with every backslash escape replaced by the escaped character; a
/// trailing backslash stays.
pub open spec fn unescape_phrase(s: Seq<char>) -> Seq<char>
    decreases s.len(),
{
    if s.len() == 0 {
        s
    } else if s[0] == '\\' && s.len() > 1 {
        seq![s[1]] + unescape_phrase(s.drop_first().drop_first())
    } else {
        seq![s[0]] + unescape_phrase(s.drop_first())
    }
}

/// Text without backslashes is its own unescaping, both ways.
pub proof fn lemma_unescape_no_backslash(s: Seq<char>)
    requires
        !s.contains('\\'),
    ensures
        unescape_wild(s) == s,
        unescape_phrase(s) == s,
    decreases s.len(),
{
    if s.len() > 0 {
        assert(s[0] != '\\');
        let t = s.drop_first();
        assert(!t.contains('\\')) by {
            if t.contains('\\') {
                let k = choose|k: int| 0 <= k < t.len() && t[k] == '\\';
                assert(s[k + 1] == '\\');
            }
        }
        lemma_unescape_no_backslash(t);
        assert(s == seq![s[0]] + t);
    }
}

/// Whether `s` holds a backslash.
fn has_backslash(s: &Vec<char>) -> (r: bool)
    ensures
        r == s@.contains('\\'),
{
    let mut i: usize = 0;
    while i < s.len()
        invariant
            i <= s@.len(),
            forall|k: int| 0 <= k < i ==> s@[k] != '\\',
        decreases s@.len() - i,
    {
        if s[i] == '\\' {
            return true;
        }
        i += 1;
    }
    false
}

/// The unescaping of `s` from index `i` on, in the `\*`/`\?` sense.
proof fn lemma_unescape_wild_step(s: Seq<char>, i: int)
    requires
        0 <= i < s.len(),
    ensures
        s[i] == '\\' && i + 1 < s.len() && is_wild(s[i + 1]) ==>
            unescape_wild(s.skip(i)) == seq![s[i + 1]] + unescape_wild(s.skip(i + 2)),
        !(s[i] == '\\' && i + 1 < s.len() && is_wild(s[i + 1])) ==>
            unescape_wild(s.skip(i)) == seq![s[i]] + unescape_wild(s.skip(i + 1)),
{
    let t = s.skip(i);
    assert(t.drop_first() == s.skip(i + 1));
    if i + 1 < s.len() {
        assert(t.drop_first().drop_first() == s.skip(i + 2));
    }
}

/// The phrase unescaping of `s` from index `i` on.
proof fn lemma_unescape_phrase_step(s: Seq<char>, i: int)
    requires
        0 <= i < s.len(),
    ensures
        s[i] == '\\' && i + 1 < s.len() ==>
            unescape_phrase(s.skip(i)) == seq![s[i + 1]] + unescape_phrase(s.skip(i + 2)),
        !(s[i] == '\\' && i + 1 < s.len()) ==>
            unescape_phrase(s.skip(i)) == seq![s[i]] + unescape_phrase(s.skip(i + 1)),
{
    let t = s.skip(i);
    assert(t.drop_first() == s.skip(i + 1));
    if i + 1 < s.len() {
        assert(t.drop_first().drop_first() == s.skip(i + 2));
    }
}

/// Unescape `\*` and `\?` in a plain term; other characters, bare
/// backslashes among them, pass through.
pub fn unescape_wildcard_chars(raw: &str) -> (r: String)
    ensures
        r@ == unescape_wild(raw@),
{
    let s = chars_of(raw);
    if !has_backslash(&s) {
        proof {
            lemma_unescape_no_backslash(raw@);
        }
        return string_from_chars(&s);
    }
    let mut out: Vec<char> = Vec::new();
    let n = s.len();
    let mut i: usize = 0;
    assert(s@.skip(0) == s@);
    while i < n
        invariant
            n == s@.len(),
            i <= n,
            out@ + unescape_wild(s@.skip(i as int)) == unescape_wild(s@),
        decreases n - i,
    {
        proof {
            lemma_unescape_wild_step(s@, i as int);
        }
        if s[i] == '\\' && i + 1 < n && (s[i + 1] == '*' || s[i + 1] == '?') {
            out.push(s[i + 1]);
            i += 2;
        } else {
            out.push(s[i]);
            i += 1;
        }
        proof {
            assert(out@ + unescape_wild(s@.skip(i as int)) == unescape_wild(s@));
        }
    }
    proof {
        assert(s@.skip(n as int) == Seq::<char>::empty());
        assert(s@.skip(0) == s@);
    }
    string_from_chars(&out)
}

/// Unescape a phrase term: a backslash makes the next character literal
/// (`\"` is `"`, `\\` is `\`); a trailing backslash stays.
pub fn unescape_phrase_term(raw: &str) -> (r: String)
    ensures
        r@ == unescape_phrase(raw@),
{
    let s = chars_of(raw);
    if !has_backslash(&s) {
        proof {
            lemma_unescape_no_backslash(raw@);
        }
        return string_from_chars(&s);
    }
    let mut out: Vec<char> = Vec::new();
    let n = s.len();
    let mut i: usize = 0;
    assert(s@.skip(0) == s@);
    while i < n
        invariant
            n == s@.len(),
            i <= n,
            out@ + unescape_phrase(s@.skip(i as int)) == unescape_phrase(s@),
        decreases n - i,
    {
        proof {
            lemma_unescape_phrase_step(s@, i as int);
        }
        if s[i] == '\\' && i + 1 < n {
            out.push(s[i + 1]);
            i += 2;
        } else {
            out.push(s[i]);
            i += 1;
        }
        proof {
            assert(out@ + unescape_phrase(s@.skip(i as int)) == unescape_phrase(s@));
        }
    }
    proof {
        assert(s@.skip(n as int) == Seq::<char>::empty());
        assert(s@.skip(0) == s@);
    }
    string_from_chars(&out)
}

/// The models of a list of pieces.
pub open spec fn parts_model(v: Seq<WildcardPart>) -> Seq<PartModel> {
    v.map_values(|p: WildcardPart| part_model(p))
}

/// Split a raw term into wildcard pieces.
pub fn parse_wildcard_parts(raw: &str) -> (r: Vec<WildcardPart>)
    ensures
        parts_model(r@) == parts_from(raw@, 0, Seq::empty()),
{
    let s = chars_of(raw);
    let n = s.len();
    let mut parts: Vec<WildcardPart> = Vec::new();
    let mut literal: Vec<char> = Vec::new();
    let mut i: usize = 0;
    while i < n
        invariant
            n == s@.len(),
            s@ == raw@,
            i <= n,
            parts_model(parts@) + parts_from(s@, i as int, literal@) == parts_from(s@, 0, Seq::empty()),
        decreases n - i,
    {
        let c = s[i];
        let ghost lit0 = literal@;
        if c == '\\' && i + 1 < n && (s[i + 1] == '*' || s[i + 1] == '?') {
            literal.push(s[i + 1]);
            proof {
                assert(parts_from(s@, i as int, lit0) == parts_from(s@, i + 2, lit0.push(s@[i + 1])));
            }
            i += 2;
        } else if c == '*' || c == '?' {
            let ghost before = parts_model(parts@);
            let ghost lit = literal@;
            if literal.len() > 0 {
                let text = string_from_chars(&literal);
                parts.push(WildcardPart::Literal(text));
                literal = Vec::new();
            }
            if c == '*' {
                parts.push(WildcardPart::Any);
            } else {
                parts.push(WildcardPart::Single);
            }
            proof {
                let piece = if c == '*' { PartModel::Any } else { PartModel::Single };
                assert(literal@ == Seq::<char>::empty());
                assert(parts_model(parts@) =~= before + flush(lit) + seq![piece]);
                assert(parts_from(s@, i as int, lit) == flush(lit) + seq![piece] + parts_from(s@, i + 1, Seq::empty()));
            }
            i += 1;
        } else {
            literal.push(c);
            proof {
                assert(parts_from(s@, i as int, lit0) == parts_from(s@, i + 1, lit0.push(c)));
            }
            i += 1;
        }
    }
    let ghost before = parts_model(parts@);
    let ghost lit = literal@;
    if literal.len() > 0 {
        let text = string_from_chars(&literal);
        parts.push(WildcardPart::Literal(text));
    }
    proof {
        assert(parts_model(parts@) =~= before + flush(lit));
    }
    parts
}

/// Whether `s` holds an unescaped `*` or `?`, scanning from index `i`.
fn scan_unescaped_wildcard(s: &Vec<char>) -> (r: bool)
    ensures
        r == unescaped_wildcard_from(s@, 0),
{
    let n = s.len();
    let mut i: usize = 0;
    while i < n
        invariant
            n == s@.len(),
            unescaped_wildcard_from(s@, i as int) == unescaped_wildcard_from(s@, 0),
        decreases n + 2 - i,
    {
        if s[i] == '\\' && i + 1 < n && (s[i + 1] == '*' || s[i + 1] == '?') {
            i += 2;
        } else if s[i] == '*' || s[i] == '?' {
            return true;
        } else {
            i += 1;
        }
    }
    false
}

/// Classify a raw term: with an unescaped `*` or `?` it is a wildcard
/// split into pieces, otherwise a plain term with `\*` and `\?` unescaped.
pub fn classify_term(raw: &str) -> (r: ClassifiedTerm)
    ensures
        unescaped_wildcard_from(raw@, 0) ==> (r matches ClassifiedTerm::Wildcard(parts)
            && parts_model(parts@) == parts_from(raw@, 0, Seq::empty())),
        !unescaped_wildcard_from(raw@, 0) ==> (r matches ClassifiedTerm::Term(t) && t@ == unescape_wild(raw@)),
        r matches ClassifiedTerm::Wildcard(parts) ==> has_wild_part(parts_model(parts@)),
{
    proof {
        lemma_wildcard_has_wild_part(raw@, 0, Seq::empty());
    }
    let s = chars_of(raw);
    if scan_unescaped_wildcard(&s) {
        ClassifiedTerm::Wildcard(parse_wildcard_parts(raw))
    } else {
        ClassifiedTerm::Term(unescape_wildcard_chars(raw))
    }
}

} // verus!
