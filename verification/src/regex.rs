//! Full-term regular expressions for `MATCHES` terms, compiled with
//! `regex-syntax` and `regex-automata`.
use vstd::prelude::*;
use regex_automata::meta::{BuildError, Regex as MetaRegex};
use regex_syntax::hir::Hir;
use crate::text::{chars_of, push_str, string_from_chars};

verus! {

#[verifier::external_type_specification]
#[verifier::external_body]
pub struct ExHir(Hir);

#[verifier::external_type_specification]
#[verifier::external_body]
pub struct ExMetaRegex(MetaRegex);

#[verifier::external_type_specification]
#[verifier::external_body]
pub struct ExSyntaxError(regex_syntax::Error);

#[verifier::external_type_specification]
#[verifier::external_body]
pub struct ExBuildError(BuildError);

/// Whether `regex_syntax::parse` accepts the pattern.
pub uninterp spec fn syntax_accepts(pattern: Seq<char>) -> bool;

/// Calls `regex_syntax::parse`; it succeeds exactly on the patterns the
/// regex grammar accepts, and the same pattern always gets the same answer.
#[verifier::external_body]
fn parse_hir(pattern: &str) -> (r: Result<Hir, regex_syntax::Error>)
    ensures
        r is Ok <==> syntax_accepts(pattern@),
{
    regex_syntax::parse(pattern)
}

/// Calls `ToString::to_string` on a syntax error; nothing is stated of the text.
#[verifier::external_body]
fn syntax_error_text(e: &regex_syntax::Error) -> (r: String) {
    e.to_string()
}

/// Whether `regex_automata::meta::Regex::new` builds a matcher for the
/// pattern under the default configuration.
pub uninterp spec fn regex_builds(pattern: Seq<char>) -> bool;

/// Calls `regex_automata::meta::Regex::new`: it parses the pattern with the
/// default syntax options, the same as `regex_syntax::parse`, and builds the
/// matcher with the default configuration (fixed size limits), so whether it
/// succeeds depends on the pattern alone; it never succeeds on a pattern
/// that does not parse.
#[verifier::external_body]
fn build_matcher(pattern: &str) -> (r: Result<MetaRegex, BuildError>)
    ensures
        r is Ok <==> regex_builds(pattern@),
        r is Ok ==> syntax_accepts(pattern@),
{
    MetaRegex::new(pattern)
}

/// Calls `ToString::to_string` on a build error; nothing is stated of the text.
#[verifier::external_body]
fn build_error_text(e: &BuildError) -> (r: String) {
    e.to_string()
}

/// Calls `regex_automata::meta::Regex::is_match`; the automaton is opaque
/// here, so nothing is stated of the answer.
#[verifier::external_body]
fn matcher_is_match(matcher: &MetaRegex, haystack: &str) -> (r: bool) {
    matcher.is_match(haystack)
}

/// A regex pattern that failed to compile, and why.
#[derive(Debug)]
pub struct RegexError {
    pattern: String,
    message: String,
}

/// The pattern anchored to match a whole term: `\A(?:pattern)\z`.
pub open spec fn full_term(pattern: Seq<char>) -> Seq<char> {
    "\\A(?:"@ + pattern + ")\\z"@
}

/// The message of a compile failure.
pub open spec fn regex_error_text(pattern: Seq<char>, message: Seq<char>) -> Seq<char> {
    "invalid regex \""@ + pattern + "\": "@ + message
}

impl RegexError {
    /// The pattern that failed.
    pub closed spec fn spec_pattern(&self) -> Seq<char> {
        self.pattern@
    }

    /// Why it failed.
    pub closed spec fn spec_message(&self) -> Seq<char> {
        self.message@
    }

    fn new(pattern: &str, message: String) -> (r: Self)
        ensures
            r.spec_pattern() == pattern@,
    {
        RegexError { pattern: pattern.to_string(), message }
    }

    /// `invalid regex "<pattern>": <reason>`.
    pub fn to_string(&self) -> (r: String)
        ensures
            r@ == regex_error_text(self.spec_pattern(), self.spec_message()),
    {
        let mut out: Vec<char> = Vec::new();
        push_str(&mut out, "invalid regex \"");
        push_str(&mut out, self.pattern.as_str());
        push_str(&mut out, "\": ");
        push_str(&mut out, self.message.as_str());
        proof {
            assert(out@ =~= regex_error_text(self.pattern@, self.message@));
        }
        string_from_chars(&out)
    }
}

/// Anchor `pattern` so that it must match a whole term.
pub fn full_term_regex_pattern(pattern: &str) -> (r: String)
    ensures
        r@ == full_term(pattern@),
{
    let mut out: Vec<char> = Vec::new();
    push_str(&mut out, "\\A(?:");
    push_str(&mut out, pattern);
    push_str(&mut out, ")\\z");
    proof {
        assert(out@ =~= full_term(pattern@));
    }
    string_from_chars(&out)
}

/// A compiled full-term regular expression.
#[derive(Debug)]
pub struct CompiledRegex {
    source: String,
    hir: Hir,
    matcher: MetaRegex,
}

/// Two compiled regexes are equal when they were compiled from the same
/// pattern.
impl PartialEq for CompiledRegex {
    fn eq(&self, other: &Self) -> (r: bool) {
        self.source == other.source
    }
}

impl Eq for CompiledRegex {}

impl vstd::std_specs::cmp::PartialEqSpecImpl for CompiledRegex {
    open spec fn obeys_eq_spec() -> bool {
        true
    }

    open spec fn eq_spec(&self, other: &Self) -> bool {
        self.spec_source() == other.spec_source()
    }
}

/// A regex metacharacter that makes a pattern body more than a literal.
pub open spec fn is_meta(c: char) -> bool {
    c == '.' || c == '*' || c == '?' || c == '+' || c == '(' || c == ')' || c == '['
        || c == ']' || c == '{' || c == '}' || c == '|' || c == '^' || c == '$'
}

/// A character that a backslash turns into itself: a metacharacter or the
/// backslash. Any other escape (`\d`, `\w`, `\n`, ...) means something else.
pub open spec fn is_escapable(c: char) -> bool {
    is_meta(c) || c == '\\'
}

/// The literal a pattern body spells from index `i` on, if it is one: a
/// backslash before a metacharacter or a backslash makes that character
/// literal; a bare metacharacter, any other escape, or a trailing
/// backslash makes it no literal.
pub open spec fn literal_from(s: Seq<char>, i: int) -> Option<Seq<char>>
    decreases s.len() - i,
{
    if i < 0 || i >= s.len() {
        Some(Seq::empty())
    } else if s[i] == '\\' {
        if i + 1 >= s.len() || !is_escapable(s[i + 1]) {
            None
        } else {
            match literal_from(s, i + 2) {
                Some(rest) => Some(seq![s[i + 1]] + rest),
                None => None,
            }
        }
    } else if is_meta(s[i]) {
        None
    } else {
        match literal_from(s, i + 1) {
            Some(rest) => Some(seq![s[i]] + rest),
            None => None,
        }
    }
}

/// The literal prefix of a pattern of the form `<literal>.*` with a
/// non-empty literal.
pub open spec fn spec_pure_prefix(src: Seq<char>) -> Option<Seq<char>> {
    if src.len() >= 2 && src[src.len() - 2] == '.' && src[src.len() - 1] == '*' {
        match literal_from(src.take(src.len() - 2), 0) {
            Some(p) => if p.len() > 0 { Some(p) } else { None },
            None => None,
        }
    } else {
        None
    }
}

/// `h` is `p` followed by characters none of which is a line feed: the
/// terms the anchored pattern `\A(?:<p>.*)\z` matches when `p` is a literal.
pub open spec fn prefix_term_match(p: Seq<char>, h: Seq<char>) -> bool {
    &&& p.len() <= h.len()
    &&& h.take(p.len() as int) == p
    &&& forall|i: int| p.len() <= i < h.len() ==> h[i] != '\n'
}

/// Whether `h` is `p` followed by characters none of which is a line feed.
fn prefix_term_matches(p: &Vec<char>, h: &Vec<char>) -> (r: bool)
    ensures
        r == prefix_term_match(p@, h@),
{
    if p.len() > h.len() {
        return false;
    }
    let mut i: usize = 0;
    while i < p.len()
        invariant
            p@.len() <= h@.len(),
            i <= p@.len(),
            forall|k: int| 0 <= k < i ==> h@[k] == p@[k],
        decreases p@.len() - i,
    {
        if h[i] != p[i] {
            proof {
                assert(h@.take(p@.len() as int)[i as int] != p@[i as int]);
            }
            return false;
        }
        i += 1;
    }
    proof {
        assert(h@.take(p@.len() as int) =~= p@);
    }
    while i < h.len()
        invariant
            p@.len() <= i <= h@.len(),
            h@.take(p@.len() as int) == p@,
            forall|k: int| p@.len() <= k < i ==> h@[k] != '\n',
        decreases h@.len() - i,
    {
        if h[i] == '\n' {
            return false;
        }
        i += 1;
    }
    true
}

/// How a literal prefix pattern matches: the literal itself matches, a
/// match stays one when text without a line feed is added at its end, and
/// every match starts with the literal and holds no line feed after it.
pub proof fn lemma_prefix_term_match(p: Seq<char>, h: Seq<char>, tail: Seq<char>)
    ensures
        prefix_term_match(p, p),
        prefix_term_match(p, h) && (forall|i: int| 0 <= i < tail.len() ==> tail[i] != '\n')
            ==> prefix_term_match(p, h + tail),
        prefix_term_match(p, h) ==> p.is_prefix_of(h),
        prefix_term_match(p, h) ==> !h.subrange(p.len() as int, h.len() as int).contains('\n'),
{
    assert(p.take(p.len() as int) =~= p);
    if prefix_term_match(p, h) {
        let ht = h + tail;
        assert(ht.take(p.len() as int) =~= h.take(p.len() as int));
        if forall|i: int| 0 <= i < tail.len() ==> tail[i] != '\n' {
            assert forall|i: int| p.len() <= i < ht.len() implies ht[i] != '\n' by {
                if i >= h.len() {
                    assert(ht[i] == tail[i - h.len()]);
                }
            }
        }
        assert forall|i: int| 0 <= i < p.len() implies p[i] == h[i] by {
            assert(h.take(p.len() as int)[i] == h[i]);
        }
        let rest = h.subrange(p.len() as int, h.len() as int);
        assert forall|i: int| 0 <= i < rest.len() implies rest[i] != '\n' by {
            assert(rest[i] == h[i + p.len()]);
        }
    }
}

impl CompiledRegex {
    /// The pattern the regex was compiled from.
    pub closed spec fn spec_source(&self) -> Seq<char> {
        self.source@
    }

    /// Compile `pattern` to match whole terms only. It fails when the
    /// anchored pattern does not parse, or when the automaton cannot be
    /// built; the error names the pattern.
    pub fn new(pattern: &str) -> (r: Result<Self, RegexError>)
        ensures
            r is Ok <==> (syntax_accepts(full_term(pattern@)) && regex_builds(full_term(pattern@))),
            r matches Ok(c) ==> c.spec_source() == pattern@,
            r matches Err(e) ==> e.spec_pattern() == pattern@,
    {
        let anchored = full_term_regex_pattern(pattern);
        let hir = match parse_hir(anchored.as_str()) {
            Ok(h) => h,
            Err(e) => return Err(RegexError::new(pattern, syntax_error_text(&e))),
        };
        let matcher = match build_matcher(anchored.as_str()) {
            Ok(m) => m,
            Err(e) => return Err(RegexError::new(pattern, build_error_text(&e))),
        };
        Ok(CompiledRegex { source: pattern.to_string(), hir, matcher })
    }

    /// The pattern the regex was compiled from.
    pub fn source(&self) -> (r: &str)
        ensures
            r@ == self.spec_source(),
    {
        self.source.as_str()
    }

    /// The parsed, anchored pattern the regex was built from.
    pub closed spec fn spec_hir(&self) -> Hir {
        self.hir
    }

    /// The parsed, anchored pattern.
    pub fn hir(&self) -> (r: &Hir)
        ensures
            *r == self.spec_hir(),
    {
        &self.hir
    }

    /// Whether the whole of `haystack` matches the pattern. A pattern of the
    /// form `<literal>.*` matches exactly the terms that start with the
    /// literal and go on without a line feed (`.` matches any character but
    /// `\n`); that case is decided by the prefix test, any other pattern by
    /// the compiled automaton.
    pub fn is_match(&self, haystack: &str) -> (r: bool)
        ensures
            spec_pure_prefix(self.spec_source()) matches Some(p) ==> (r <==> prefix_term_match(p, haystack@)),
    {
        match self.pure_prefix() {
            Some(p) => {
                let h = chars_of(haystack);
                let q = chars_of(p.as_str());
                prefix_term_matches(&q, &h)
            },
            None => matcher_is_match(&self.matcher, haystack),
        }
    }

    /// The literal prefix when the pattern is exactly `<literal>.*` (the
    /// shape a prefix wildcard such as `foo*` becomes), the literal using no
    /// escape but an escaped metacharacter or backslash; matching it is then
    /// a prefix test. Any other shape gives `None`.
    pub fn pure_prefix(&self) -> (r: Option<String>)
        ensures
            r matches Some(p) ==> spec_pure_prefix(self.spec_source()) == Some(p@),
            r is None ==> spec_pure_prefix(self.spec_source()) is None,
    {
        let s = chars_of(self.source.as_str());
        let n = s.len();
        if n < 2 || s[n - 2] != '.' || s[n - 1] != '*' {
            return None;
        }
        let body_len = n - 2;
        let ghost body = s@.take(body_len as int);
        let mut prefix: Vec<char> = Vec::new();
        let mut i: usize = 0;
        while i < body_len
            invariant
                n == s@.len(),
                s@ == self.spec_source(),
                n >= 2 && s@[n - 2] == '.' && s@[n - 1] == '*',
                body_len == n - 2,
                body == s@.take(body_len as int),
                i <= body_len,
                literal_from(body, 0) == (match literal_from(body, i as int) {
                    Some(rest) => Some(prefix@ + rest),
                    None => None::<Seq<char>>,
                }),
            decreases body_len - i,
        {
            let c = s[i];
            assert(body[i as int] == c);
            if c == '\\' {
                if i + 1 >= body_len {
                    assert(literal_from(body, i as int) is None);
                    return None;
                }
                let e = s[i + 1];
                if !(e == '\\' || e == '.' || e == '*' || e == '?' || e == '+' || e == '(' || e == ')' || e == '['
                    || e == ']' || e == '{' || e == '}' || e == '|' || e == '^' || e == '$') {
                    assert(body[i + 1] == e);
                    assert(!is_escapable(e));
                    assert(literal_from(body, i as int) is None);
                    return None;
                }
                proof {
                    match literal_from(body, i + 2) {
                        Some(rest) => assert(prefix@ + (seq![body[i + 1]] + rest) == prefix@.push(s@[i + 1]) + rest),
                        None => {},
                    }
                }
                prefix.push(s[i + 1]);
                i += 2;
            } else if c == '.' || c == '*' || c == '?' || c == '+' || c == '(' || c == ')' || c == '['
                || c == ']' || c == '{' || c == '}' || c == '|' || c == '^' || c == '$' {
                assert(is_meta(c));
                assert(literal_from(body, i as int) is None);
                return None;
            } else {
                proof {
                    match literal_from(body, i + 1) {
                        Some(rest) => assert(prefix@ + (seq![body[i as int]] + rest) == prefix@.push(c) + rest),
                        None => {},
                    }
                }
                prefix.push(c);
                i += 1;
            }
        }
        proof {
            assert(prefix@ + Seq::<char>::empty() == prefix@);
        }
        if prefix.len() == 0 {
            None
        } else {
            Some(string_from_chars(&prefix))
        }
    }
}

} // verus!
