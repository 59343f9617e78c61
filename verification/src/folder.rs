//! Case and accent folding of token text.
use vstd::prelude::*;
use crate::spec::Folding;
use crate::token::Token;
use crate::text::{chars_of, string_from_chars};

verus! {

// ---------------------------------------------------------------- outside Unicode data

/// The full lowercase mapping of `c` (one or more characters).
pub uninterp spec fn lowercase_of(c: char) -> Seq<char>;

/// The canonical decomposition (NFD) of a character sequence.
pub uninterp spec fn nfd_of(s: Seq<char>) -> Seq<char>;

/// The canonical composition (NFC) of a character sequence.
pub uninterp spec fn nfc_of(s: Seq<char>) -> Seq<char>;

/// Whether `c` is a combining mark (general category M).
pub uninterp spec fn combining_mark(c: char) -> bool;

/// The canonical combining class of `c`.
pub uninterp spec fn combining_class(c: char) -> u8;

/// Whether the NFD quick check answers "yes" for `c` alone.
pub uninterp spec fn nfd_quick_yes(c: char) -> bool;

/// Whether the NFC quick check answers "yes" for `c` alone.
pub uninterp spec fn nfc_quick_yes(c: char) -> bool;

/// Calls `char::to_lowercase` and collects the characters it yields.
#[verifier::external_body]
fn lowercase_chars(c: char) -> (r: Vec<char>)
    ensures
        r@ == lowercase_of(c),
{
    c.to_lowercase().collect()
}

/// Calls `UnicodeNormalization::nfd` on the characters of `s`.
#[verifier::external_body]
fn nfd_chars(s: &Vec<char>) -> (r: Vec<char>)
    ensures
        r@ == nfd_of(s@),
{
    unicode_normalization::UnicodeNormalization::nfd(s.iter().copied()).collect()
}

/// Calls `UnicodeNormalization::nfc` on the characters of `s`.
#[verifier::external_body]
fn nfc_chars(s: &Vec<char>) -> (r: Vec<char>)
    ensures
        r@ == nfc_of(s@),
{
    unicode_normalization::UnicodeNormalization::nfc(s.iter().copied()).collect()
}

/// Calls `unicode_normalization::char::is_combining_mark`.
#[verifier::external_body]
fn is_combining_mark(c: char) -> (r: bool)
    ensures
        r == combining_mark(c),
{
    unicode_normalization::char::is_combining_mark(c)
}

/// Calls `unicode_normalization::char::canonical_combining_class`.
#[verifier::external_body]
fn canonical_combining_class(c: char) -> (r: u8)
    ensures
        r == combining_class(c),
{
    unicode_normalization::char::canonical_combining_class(c)
}

/// Calls `unicode_normalization::is_nfd_quick` on `c` alone and tells
/// whether it answered `IsNormalized::Yes`.
#[verifier::external_body]
fn nfd_quick_check(c: char) -> (r: bool)
    ensures
        r == nfd_quick_yes(c),
{
    match unicode_normalization::is_nfd_quick(std::iter::once(c)) {
        unicode_normalization::IsNormalized::Yes => true,
        unicode_normalization::IsNormalized::No => false,
        unicode_normalization::IsNormalized::Maybe => false,
    }
}

/// Calls `unicode_normalization::is_nfc_quick` on `c` alone and tells
/// whether it answered `IsNormalized::Yes`.
#[verifier::external_body]
fn nfc_quick_check(c: char) -> (r: bool)
    ensures
        r == nfc_quick_yes(c),
{
    match unicode_normalization::is_nfc_quick(std::iter::once(c)) {
        unicode_normalization::IsNormalized::Yes => true,
        unicode_normalization::IsNormalized::No => false,
        unicode_normalization::IsNormalized::Maybe => false,
    }
}

// ---------------------------------------------------------------- the folds

/// Every character of `s` is ASCII.
pub open spec fn all_ascii(s: Seq<char>) -> bool {
    forall|i: int| 0 <= i < s.len() ==> (#[trigger] s[i] as u32) < 0x80
}

/// `c` with ASCII uppercase letters lowered.
pub open spec fn ascii_lower_char(c: char) -> char {
    if 'A' <= c <= 'Z' { ((c as u32) + 0x20) as char } else { c }
}

/// `s` with ASCII uppercase letters lowered.
pub open spec fn ascii_lower(s: Seq<char>) -> Seq<char> {
    s.map_values(|c: char| ascii_lower_char(c))
}

/// The lowercase mappings of every character of `s`, concatenated.
pub open spec fn lower_all(s: Seq<char>) -> Seq<char>
    decreases s.len(),
{
    if s.len() == 0 {
        Seq::empty()
    } else {
        lower_all(s.drop_last()) + lowercase_of(s.last())
    }
}

/// `s` without its combining marks.
pub open spec fn strip_marks(s: Seq<char>) -> Seq<char> {
    s.filter(|c: char| !combining_mark(c))
}

/// Every character of `s` is at most U+00FF.
pub open spec fn all_latin1(s: Seq<char>) -> bool {
    forall|i: int| 0 <= i < s.len() ==> (#[trigger] s[i] as u32) <= 0xFF
}

/// The case-and-accent fold of one character at most U+00FF: lowercase,
/// and drop the accent of an accented Latin letter.
pub open spec fn latin1_fold(u: u32) -> u32 {
    if 0x41 <= u <= 0x5A { (u + 0x20) as u32 }
    else if (0xC0 <= u <= 0xC5) || (0xE0 <= u <= 0xE5) { 0x61 }
    else if u == 0xC7 || u == 0xE7 { 0x63 }
    else if (0xC8 <= u <= 0xCB) || (0xE8 <= u <= 0xEB) { 0x65 }
    else if (0xCC <= u <= 0xCF) || (0xEC <= u <= 0xEF) { 0x69 }
    else if u == 0xD1 || u == 0xF1 { 0x6E }
    else if (0xD2 <= u <= 0xD6) || (0xF2 <= u <= 0xF6) { 0x6F }
    else if (0xD9 <= u <= 0xDC) || (0xF9 <= u <= 0xFC) { 0x75 }
    else if u == 0xDD || u == 0xFD || u == 0xFF { 0x79 }
    else if u == 0xC6 || u == 0xD0 || u == 0xD8 || u == 0xDE { (u + 0x20) as u32 }
    else { u }
}

/// `s` folded character by character through `latin1_fold`.
pub open spec fn latin1_fold_all(s: Seq<char>) -> Seq<char> {
    s.map_values(|c: char| latin1_fold(c as u32) as char)
}

/// Every character of `s` is a combining mark.
pub open spec fn all_marks(s: Seq<char>) -> bool {
    forall|i: int| 0 <= i < s.len() ==> combining_mark(#[trigger] s[i])
}

/// The text is already folded by the quick test: no ASCII uppercase, no
/// combining mark, every other character its own lowercase, combining
/// classes in canonical order and both normalization quick checks "yes".
pub open spec fn unchanged_from(s: Seq<char>, i: int, last_ccc: u8) -> bool
    decreases s.len() - i,
{
    if i >= s.len() || i < 0 {
        true
    } else {
        let c = s[i];
        if (c as u32) < 0x80 {
            !('A' <= c <= 'Z') && unchanged_from(s, i + 1, 0)
        } else {
            let ccc = combining_class(c);
            &&& !combining_mark(c)
            &&& lowercase_of(c) == seq![c]
            &&& !(ccc != 0 && ccc < last_ccc)
            &&& nfd_quick_yes(c)
            &&& nfc_quick_yes(c)
            &&& unchanged_from(s, i + 1, ccc)
        }
    }
}

/// Case folding: ASCII text is lowered directly, other text through the
/// full lowercase mapping.
pub open spec fn case_fold(s: Seq<char>) -> Seq<char> {
    if all_ascii(s) { ascii_lower(s) } else { lower_all(s) }
}

/// Accent folding: ASCII text is unchanged, other text is decomposed,
/// stripped of combining marks and recomposed.
pub open spec fn accent_fold(s: Seq<char>) -> Seq<char> {
    if all_ascii(s) { s } else { nfc_of(strip_marks(nfd_of(s))) }
}

/// ASCII text whose characters each lower to their ASCII lowercase lowers,
/// through the full mapping, to its ASCII lowercase.
proof fn lemma_ascii_lower_all(s: Seq<char>)
    requires
        all_ascii(s),
        forall|i: int| 0 <= i < s.len() ==> lowercase_of(#[trigger] s[i]) == seq![ascii_lower_char(s[i])],
    ensures
        lower_all(s) == ascii_lower(s),
    decreases s.len(),
{
    if s.len() > 0 {
        let t = s.drop_last();
        assert forall|i: int| 0 <= i < t.len() implies (#[trigger] t[i] as u32) < 0x80 by {
            assert(t[i] == s[i]);
        }
        assert forall|i: int| 0 <= i < t.len() implies lowercase_of(#[trigger] t[i]) == seq![ascii_lower_char(t[i])] by {
            assert(t[i] == s[i]);
        }
        lemma_ascii_lower_all(t);
        assert(lowercase_of(s[s.len() - 1]) == seq![ascii_lower_char(s[s.len() - 1])]);
        assert(ascii_lower(s) == ascii_lower(t) + seq![ascii_lower_char(s.last())]);
    } else {
        assert(ascii_lower(s) == Seq::<char>::empty());
    }
}

/// Case folding is the full lowercase mapping wherever that mapping sends
/// each ASCII character to its ASCII lowercase, as `char::to_lowercase`
/// documents: the ASCII shortcut changes no result.
pub proof fn lemma_case_fold_is_lowercase(s: Seq<char>)
    requires
        forall|i: int| 0 <= i < s.len() && (s[i] as u32) < 0x80
            ==> lowercase_of(#[trigger] s[i]) == seq![ascii_lower_char(s[i])],
    ensures
        case_fold(s) == lower_all(s),
{
    if all_ascii(s) {
        assert forall|i: int| 0 <= i < s.len() implies lowercase_of(#[trigger] s[i]) == seq![ascii_lower_char(s[i])] by {
            assert((s[i] as u32) < 0x80);
        }
        lemma_ascii_lower_all(s);
    }
}

/// Case and accent folding, with its shortcuts: ASCII text is lowered,
/// Latin-1 text goes through the table, a text of combining marks alone
/// folds to nothing, text the quick test finds folded stays, and any other
/// text is lowered, decomposed, stripped of combining marks and recomposed.
pub open spec fn case_accent_fold(s: Seq<char>) -> Seq<char> {
    if all_ascii(s) {
        ascii_lower(s)
    } else if all_latin1(s) {
        latin1_fold_all(s)
    } else if s.len() > 0 && combining_mark(s[0]) && all_marks(s) {
        Seq::empty()
    } else if !(s.len() > 0 && combining_mark(s[0])) && unchanged_from(s, 0, 0) {
        s
    } else {
        nfc_of(strip_marks(nfd_of(lower_all(s))))
    }
}

/// Which folding steps a pipeline applies.
#[derive(Clone, Copy, PartialEq, Eq, Structural)]
pub enum CompiledFolder {
    Preserve,
    Case,
    Accent,
    CaseAndAccent,
}

/// The text a folder makes of `s`.
pub open spec fn folded(f: CompiledFolder, s: Seq<char>) -> Seq<char> {
    match f {
        CompiledFolder::Preserve => s,
        CompiledFolder::Case => case_fold(s),
        CompiledFolder::Accent => accent_fold(s),
        CompiledFolder::CaseAndAccent => case_accent_fold(s),
    }
}

impl CompiledFolder {
    /// The folder for the given case and accent settings.
    pub fn new(case: Folding, accent: Folding) -> (r: Self)
        ensures
            r == match (case, accent) {
                (Folding::Preserve, Folding::Preserve) => CompiledFolder::Preserve,
                (Folding::Fold, Folding::Preserve) => CompiledFolder::Case,
                (Folding::Preserve, Folding::Fold) => CompiledFolder::Accent,
                (Folding::Fold, Folding::Fold) => CompiledFolder::CaseAndAccent,
            },
    {
        match (case, accent) {
            (Folding::Preserve, Folding::Preserve) => CompiledFolder::Preserve,
            (Folding::Fold, Folding::Preserve) => CompiledFolder::Case,
            (Folding::Preserve, Folding::Fold) => CompiledFolder::Accent,
            (Folding::Fold, Folding::Fold) => CompiledFolder::CaseAndAccent,
        }
    }

    /// Fold the token's text; its position and kind stay.
    pub fn apply(self, token: &mut Token)
        ensures
            final(token).text@ == folded(self, old(token).text@),
            final(token).pos == old(token).pos,
            final(token).classification == old(token).classification,
            final(token).came_from_split == old(token).came_from_split,
    {
        let chars = chars_of(token.text.as_str());
        let out = match self {
            CompiledFolder::Preserve => return,
            CompiledFolder::Case => fold_case(&chars),
            CompiledFolder::Accent => fold_accent(&chars),
            CompiledFolder::CaseAndAccent => fold_case_and_accent(&chars),
        };
        match out {
            Some(o) => {
                token.text = string_from_chars(&o);
            },
            None => {},
        }
    }
}

/// How the ASCII fast path applies to a text.
pub enum AsciiCase {
    /// ASCII without uppercase letters.
    Lower,
    /// ASCII whose first uppercase letter is at this index.
    Upper(usize),
    /// Not all ASCII.
    Unicode,
}

/// Whether `s` is ASCII, and where its first uppercase letter is.
pub fn ascii_case(s: &Vec<char>) -> (r: AsciiCase)
    ensures
        r is Unicode <==> !all_ascii(s@),
        r is Lower ==> forall|i: int| 0 <= i < s@.len() ==> !('A' <= #[trigger] s@[i] <= 'Z'),
        r matches AsciiCase::Upper(k) ==> k < s@.len() && 'A' <= s@[k as int] <= 'Z'
            && forall|i: int| 0 <= i < k ==> !('A' <= #[trigger] s@[i] <= 'Z'),
{
    let mut first: Option<usize> = None;
    let mut i: usize = 0;
    while i < s.len()
        invariant
            i <= s@.len(),
            all_ascii(s@.take(i as int)),
            first is None ==> forall|j: int| 0 <= j < i ==> !('A' <= #[trigger] s@[j] <= 'Z'),
            first matches Some(k) ==> k < i && 'A' <= s@[k as int] <= 'Z'
                && forall|j: int| 0 <= j < k ==> !('A' <= #[trigger] s@[j] <= 'Z'),
        decreases s@.len() - i,
    {
        let c = s[i];
        if (c as u32) >= 0x80 {
            proof {
                assert(s@[i as int] == c);
            }
            return AsciiCase::Unicode;
        }
        if first.is_none() && 'A' <= c && c <= 'Z' {
            first = Some(i);
        }
        proof {
            assert(s@.take(i + 1) == s@.take(i as int).push(c));
            assert forall|j: int| 0 <= j < i + 1 implies (#[trigger] s@.take(i + 1)[j] as u32) < 0x80 by {
                if j < i {
                    assert(s@.take(i + 1)[j] == s@.take(i as int)[j]);
                }
            }
        }
        i += 1;
    }
    proof {
        assert(s@.take(s@.len() as int) == s@);
    }
    match first {
        Some(k) => AsciiCase::Upper(k),
        None => AsciiCase::Lower,
    }
}

/// `s` with the ASCII uppercase letters from index `first` on lowered.
pub fn lowercase_ascii_from(s: &Vec<char>, first: usize) -> (r: Vec<char>)
    requires
        first <= s@.len(),
        forall|i: int| 0 <= i < first ==> !('A' <= #[trigger] s@[i] <= 'Z'),
    ensures
        r@ == ascii_lower(s@),
{
    let mut out: Vec<char> = Vec::new();
    let mut i: usize = 0;
    while i < s.len()
        invariant
            i <= s@.len(),
            first <= s@.len(),
            forall|k: int| 0 <= k < first ==> !('A' <= #[trigger] s@[k] <= 'Z'),
            out@ == ascii_lower(s@.take(i as int)),
        decreases s@.len() - i,
    {
        let c = s[i];
        let lowered = if i >= first && 'A' <= c && c <= 'Z' { ((c as u32) + 0x20) as u8 as char } else { c };
        proof {
            assert(lowered == ascii_lower_char(c));
            assert(s@.take(i + 1) == s@.take(i as int).push(c));
            assert(ascii_lower(s@.take(i + 1)) == ascii_lower(s@.take(i as int)).push(ascii_lower_char(c)));
        }
        out.push(lowered);
        i += 1;
    }
    proof {
        assert(s@.take(s@.len() as int) == s@);
    }
    out
}

/// The ASCII fast path: `None` when `s` is not all ASCII; otherwise
/// `Some(changed)`, where `changed` is the lowered text when it differs.
pub fn fold_ascii(s: &Vec<char>) -> (r: Option<Option<Vec<char>>>)
    ensures
        r is None <==> !all_ascii(s@),
        r matches Some(o) ==> match o {
            Some(v) => v@ == ascii_lower(s@) && v@ != s@,
            None => ascii_lower(s@) == s@,
        },
{
    match ascii_case(s) {
        AsciiCase::Lower => {
            proof {
                assert(ascii_lower(s@) =~= s@);
            }
            Some(None)
        },
        AsciiCase::Upper(k) => {
            let v = lowercase_ascii_from(s, k);
            proof {
                assert(v@[k as int] == ascii_lower_char(s@[k as int]));
                assert(v@[k as int] != s@[k as int]);
            }
            Some(Some(v))
        },
        AsciiCase::Unicode => None,
    }
}

/// The result of the Latin-1 table fold.
pub enum Latin1Fold {
    /// A character above U+00FF appeared; the table does not apply.
    NotLatin1,
    /// Every character folds to itself.
    Identity,
    /// At least one character changed; the folded text.
    Folded(Vec<char>),
}

/// The case-and-accent fold of one character at most U+00FF.
pub fn fold_latin1_char(c: char) -> (r: char)
    requires
        (c as u32) <= 0xFF,
    ensures
        r == latin1_fold(c as u32) as char,
{
    let u = c as u32;
    let v: u32 = if 0x41 <= u && u <= 0x5A {
        u + 0x20
    } else if (0xC0 <= u && u <= 0xC5) || (0xE0 <= u && u <= 0xE5) {
        0x61
    } else if u == 0xC7 || u == 0xE7 {
        0x63
    } else if (0xC8 <= u && u <= 0xCB) || (0xE8 <= u && u <= 0xEB) {
        0x65
    } else if (0xCC <= u && u <= 0xCF) || (0xEC <= u && u <= 0xEF) {
        0x69
    } else if u == 0xD1 || u == 0xF1 {
        0x6E
    } else if (0xD2 <= u && u <= 0xD6) || (0xF2 <= u && u <= 0xF6) {
        0x6F
    } else if (0xD9 <= u && u <= 0xDC) || (0xF9 <= u && u <= 0xFC) {
        0x75
    } else if u == 0xDD || u == 0xFD || u == 0xFF {
        0x79
    } else if u == 0xC6 || u == 0xD0 || u == 0xD8 || u == 0xDE {
        u + 0x20
    } else {
        u
    };
    (v as u8) as char
}

/// Single-pass table fold for texts made entirely of scalars at most U+00FF.
pub fn fold_latin1(s: &Vec<char>) -> (r: Latin1Fold)
    ensures
        r is NotLatin1 <==> !all_latin1(s@),
        r is Identity ==> latin1_fold_all(s@) == s@,
        r matches Latin1Fold::Folded(v) ==> v@ == latin1_fold_all(s@) && v@ != s@,
{
    let mut out: Vec<char> = Vec::new();
    let mut changed = false;
    let mut i: usize = 0;
    while i < s.len()
        invariant
            i <= s@.len(),
            all_latin1(s@.take(i as int)),
            out@ == latin1_fold_all(s@.take(i as int)),
            !changed ==> out@ == s@.take(i as int),
            changed ==> out@ != s@.take(i as int),
        decreases s@.len() - i,
    {
        let c = s[i];
        if (c as u32) > 0xFF {
            proof {
                assert(s@[i as int] == c);
            }
            return Latin1Fold::NotLatin1;
        }
        let f = fold_latin1_char(c);
        let ghost before = out@;
        out.push(f);
        proof {
            assert(s@.take(i + 1) == s@.take(i as int).push(c));
            assert(latin1_fold_all(s@.take(i + 1)) == latin1_fold_all(s@.take(i as int)).push(f));
            assert forall|j: int| 0 <= j < i + 1 implies (#[trigger] s@.take(i + 1)[j] as u32) <= 0xFF by {
                if j < i {
                    assert(s@.take(i + 1)[j] == s@.take(i as int)[j]);
                }
            }
            if changed {
                if out@ == s@.take(i + 1) {
                    assert(out@.drop_last() == before);
                    assert(s@.take(i + 1).drop_last() == s@.take(i as int));
                }
            }
        }
        if f != c {
            changed = true;
            proof {
                assert(out@[i as int] != s@.take(i + 1)[i as int]);
            }
        }
        i += 1;
    }
    proof {
        assert(s@.take(s@.len() as int) == s@);
    }
    if changed {
        Latin1Fold::Folded(out)
    } else {
        Latin1Fold::Identity
    }
}

/// The quick test that a text is already case and accent folded.
pub fn case_and_accent_unchanged(s: &Vec<char>) -> (r: bool)
    ensures
        r == unchanged_from(s@, 0, 0),
{
    let mut last_ccc: u8 = 0;
    let mut i: usize = 0;
    while i < s.len()
        invariant
            i <= s@.len(),
            unchanged_from(s@, 0, 0) == unchanged_from(s@, i as int, last_ccc),
        decreases s@.len() - i,
    {
        let c = s[i];
        if (c as u32) < 0x80 {
            if 'A' <= c && c <= 'Z' {
                return false;
            }
            last_ccc = 0;
            i += 1;
            continue;
        }
        if is_combining_mark(c) {
            return false;
        }
        let lower = lowercase_chars(c);
        if lower.len() != 1 || lower[0] != c {
            proof {
                if lowercase_of(c) == seq![c] {
                    assert(lower@ == seq![c]);
                }
            }
            return false;
        }
        proof {
            assert(lower@ =~= seq![c]);
        }
        let ccc = canonical_combining_class(c);
        if ccc != 0 && ccc < last_ccc {
            return false;
        }
        last_ccc = ccc;
        if !nfd_quick_check(c) {
            return false;
        }
        if !nfc_quick_check(c) {
            return false;
        }
        i += 1;
    }
    true
}

/// `transformed` when it differs from `s`, otherwise `None`.
pub fn replace_if_changed(s: &Vec<char>, transformed: Vec<char>) -> (r: Option<Vec<char>>)
    ensures
        r is None <==> transformed@ == s@,
        r matches Some(v) ==> v@ == transformed@,
{
    if transformed.len() != s.len() {
        return Some(transformed);
    }
    let mut i: usize = 0;
    while i < s.len()
        invariant
            i <= s@.len(),
            transformed@.len() == s@.len(),
            forall|k: int| 0 <= k < i ==> transformed@[k] == s@[k],
        decreases s@.len() - i,
    {
        if transformed[i] != s[i] {
            return Some(transformed);
        }
        i += 1;
    }
    proof {
        assert(transformed@ =~= s@);
    }
    None
}

/// The lowercase mappings of every character of `s`, concatenated.
pub fn lowercase_all(s: &Vec<char>) -> (r: Vec<char>)
    ensures
        r@ == lower_all(s@),
{
    let mut out: Vec<char> = Vec::new();
    let mut i: usize = 0;
    while i < s.len()
        invariant
            i <= s@.len(),
            out@ == lower_all(s@.take(i as int)),
        decreases s@.len() - i,
    {
        let lower = lowercase_chars(s[i]);
        let mut j: usize = 0;
        let ghost before = out@;
        while j < lower.len()
            invariant
                j <= lower@.len(),
                out@ == before + lower@.take(j as int),
            decreases lower@.len() - j,
        {
            out.push(lower[j]);
            proof {
                assert(lower@.take(j + 1) == lower@.take(j as int).push(lower@[j as int]));
            }
            j += 1;
        }
        proof {
            assert(lower@.take(lower@.len() as int) == lower@);
            assert(s@.take(i + 1).drop_last() == s@.take(i as int));
            assert(s@.take(i + 1).last() == s@[i as int]);
        }
        i += 1;
    }
    proof {
        assert(s@.take(s@.len() as int) == s@);
    }
    out
}

/// `s` without its combining marks.
pub fn remove_marks(s: &Vec<char>) -> (r: Vec<char>)
    ensures
        r@ == strip_marks(s@),
{
    let mut out: Vec<char> = Vec::new();
    let mut i: usize = 0;
    while i < s.len()
        invariant
            i <= s@.len(),
            out@ == strip_marks(s@.take(i as int)),
        decreases s@.len() - i,
    {
        let c = s[i];
        proof {
            assert(s@.take(i + 1) == s@.take(i as int).push(c));
            assert(s@.take(i + 1).drop_last() == s@.take(i as int));
            s@.take(i as int).lemma_filter_push(c, |c: char| !combining_mark(c));
        }
        if !is_combining_mark(c) {
            out.push(c);
        }
        i += 1;
    }
    proof {
        assert(s@.take(s@.len() as int) == s@);
    }
    out
}

/// The case fold of `s` when it changes `s`.
pub fn fold_case(s: &Vec<char>) -> (r: Option<Vec<char>>)
    ensures
        r is None <==> case_fold(s@) == s@,
        r matches Some(v) ==> v@ == case_fold(s@),
{
    match fold_ascii(s) {
        Some(o) => return o,
        None => {},
    }
    replace_if_changed(s, lowercase_all(s))
}

/// Whether every character of `s` is ASCII.
pub fn is_ascii_text(s: &Vec<char>) -> (r: bool)
    ensures
        r == all_ascii(s@),
{
    let mut i: usize = 0;
    while i < s.len()
        invariant
            i <= s@.len(),
            forall|k: int| 0 <= k < i ==> (#[trigger] s@[k] as u32) < 0x80,
        decreases s@.len() - i,
    {
        if (s[i] as u32) >= 0x80 {
            return false;
        }
        i += 1;
    }
    true
}

/// The accent fold of `s` when it changes `s`.
pub fn fold_accent(s: &Vec<char>) -> (r: Option<Vec<char>>)
    ensures
        r is None <==> accent_fold(s@) == s@,
        r matches Some(v) ==> v@ == accent_fold(s@),
{
    if is_ascii_text(s) {
        return None;
    }
    let decomposed = nfd_chars(s);
    let stripped = remove_marks(&decomposed);
    replace_if_changed(s, nfc_chars(&stripped))
}

/// Whether every character of `s` is a combining mark.
pub fn all_combining_marks(s: &Vec<char>) -> (r: bool)
    ensures
        r == all_marks(s@),
{
    let mut i: usize = 0;
    while i < s.len()
        invariant
            i <= s@.len(),
            forall|k: int| 0 <= k < i ==> combining_mark(#[trigger] s@[k]),
        decreases s@.len() - i,
    {
        if !is_combining_mark(s[i]) {
            return false;
        }
        i += 1;
    }
    true
}

/// The case-and-accent fold of `s` when it changes `s`.
pub fn fold_case_and_accent(s: &Vec<char>) -> (r: Option<Vec<char>>)
    ensures
        r is None <==> case_accent_fold(s@) == s@,
        r matches Some(v) ==> v@ == case_accent_fold(s@),
{
    match fold_ascii(s) {
        Some(o) => return o,
        None => {},
    }
    match fold_latin1(s) {
        Latin1Fold::Identity => return None,
        Latin1Fold::Folded(v) => return Some(v),
        Latin1Fold::NotLatin1 => {},
    }
    if s.len() > 0 && is_combining_mark(s[0]) {
        if all_combining_marks(s) {
            proof {
                assert(s@.len() > 0);
                assert(Seq::<char>::empty() != s@);
            }
            return Some(Vec::new());
        }
    } else if case_and_accent_unchanged(s) {
        return None;
    }
    let lowered = lowercase_all(s);
    let decomposed = nfd_chars(&lowered);
    let stripped = remove_marks(&decomposed);
    replace_if_changed(s, nfc_chars(&stripped))
}

} // verus!
