//! The pattern registry: one compiled matcher for each kind, and the spans
//! that the requested kinds give on a text.

use crate::kinds::{PiiError, PiiField};
use crate::text::span_fits;
use regex::Regex;
use vstd::prelude::*;
use vstd::string::*;

verus! {

/// `regex::Regex`, a compiled matcher. Nothing inside it is looked at.
#[verifier::external_type_specification]
#[verifier::external_body]
pub struct ExRegex(regex::Regex);

/// `regex::Error`, the reason why a pattern was refused. It is only passed on.
#[verifier::external_type_specification]
#[verifier::external_body]
pub struct ExRegexError(regex::Error);

/// The pattern that a compiled matcher was made from.
pub uninterp spec fn pattern_of(re: Regex) -> Seq<char>;

/// The matches of `pattern` in `haystack`, from left to right, each as the
/// byte offsets of its start and its end.
pub uninterp spec fn regex_matches(pattern: Seq<char>, haystack: Seq<char>) -> Seq<(usize, usize)>;

/// Whether `Regex::new` accepts `pattern`: whether it is well-formed and the
/// matcher made from it stays within the library's fixed size limit.
pub uninterp spec fn compiles(pattern: Seq<char>) -> bool;

/// Whether the pattern of every kind compiles.
pub open spec fn patterns_compile() -> bool {
    forall|kind: PiiField| compiles(#[trigger] pattern(kind))
}

/// Calls `Regex::new`, which compiles `pattern` or refuses it. Whether it
/// accepts a pattern depends on the pattern alone, and the contract names
/// that; a matcher that comes back keeps the pattern it was made from.
///
/// This is the only place where a matcher is made: one made with other
/// settings would keep its pattern and yet match otherwise, and what
/// `find_all` says of a matcher would not hold of it.
#[verifier::external_body]
fn compile(pattern: &str) -> (r: Result<Regex, regex::Error>)
    ensures
        r is Ok <==> compiles(pattern@),
        r matches Ok(re) ==> pattern_of(re) == pattern@,
{
    Regex::new(pattern)
}

/// Calls `Regex::as_str`, which gives back the string that the matcher was
/// compiled from.
#[verifier::external_body]
fn source<'a>(re: &'a Regex) -> (s: &'a str)
    ensures
        s@ == pattern_of(*re),
{
    re.as_str()
}

/// Calls `Regex::find_iter`, which yields the successive non-overlapping
/// matches of the matcher's pattern in `haystack`, and takes `Match::start`
/// and `Match::end` of each. The contract names that list, and states what
/// the matcher library guarantees of it: of each match the start is not
/// behind the end and both lie between characters of the haystack, and each
/// search begins where the match before it ended, so that the matches come
/// from left to right and none reaches into the next.
#[verifier::external_body]
fn find_all(re: &Regex, haystack: &str) -> (found: Vec<(usize, usize)>)
    ensures
        found@ == regex_matches(pattern_of(*re), haystack@),
        forall|i: int|
            0 <= i < found@.len() ==> span_fits(
                haystack@,
                (#[trigger] found@[i]).0 as int,
                found@[i].1 as int,
            ),
        forall|i: int, j: int|
            0 <= i < j < found@.len() ==> (#[trigger] found@[i]).1 <= (#[trigger] found@[j]).0,
{
    re.find_iter(haystack).map(|m| (m.start(), m.end())).collect()
}

/// One detected occurrence: its kind and the byte offsets of its start and
/// end in the text that was scanned.
#[derive(Debug, Clone, Copy, PartialEq, Eq, Structural)]
pub struct Span {
    pub kind: PiiField,
    pub start: usize,
    pub end: usize,
}

/// The pattern of each kind.
pub open spec fn pattern(kind: PiiField) -> Seq<char> {
    match kind {
        PiiField::Email => "(?i)[\\w.+-]+@[\\w.-]+\\.\\w{2,}"@,
        PiiField::Phone => "\\b(?:\\+1[-.\\s]?)?\\(?\\d{3}\\)?[-.\\s]?\\d{3}[-.\\s]?\\d{4}\\b"@,
        PiiField::Ssn => "\\b\\d{3}[-]?\\d{2}[-]?\\d{4}\\b"@,
        PiiField::CreditCard => "\\b(?:\\d{4}[-\\s]?){3}\\d{4}\\b"@,
    }
}

/// The spans of `kind` in `text`, from left to right.
pub open spec fn spans_of(kind: PiiField, text: Seq<char>) -> Seq<Span> {
    let found = regex_matches(pattern(kind), text);
    Seq::new(found.len(), |i: int| Span { kind, start: found[i].0, end: found[i].1 })
}

/// Whether every one of `spans` fits `text`.
pub open spec fn all_fit(text: Seq<char>, spans: Seq<Span>) -> bool {
    forall|i: int|
        0 <= i < spans.len() ==> span_fits(
            text,
            (#[trigger] spans[i]).start as int,
            spans[i].end as int,
        )
}

/// Whether the spans come from left to right and none reaches into a later
/// one.
pub open spec fn left_to_right(spans: Seq<Span>) -> bool {
    forall|i: int, j: int|
        0 <= i < j < spans.len() ==> (#[trigger] spans[i]).end <= (#[trigger] spans[j]).start
}

/// The reason given when a built-in pattern is refused.
pub open spec fn refusal_reason() -> Seq<char> {
    "a built-in pattern does not compile"@
}

/// The spans that the identifiers `fields` ask for, in the order of the
/// identifiers, the spans of one identifier from left to right. An identifier
/// that names no kind asks for nothing.
pub open spec fn collect(text: Seq<char>, fields: Seq<Seq<char>>) -> Seq<Span>
    decreases fields.len(),
{
    if fields.len() == 0 {
        Seq::empty()
    } else {
        let earlier = collect(text, fields.drop_last());
        match PiiField::parse(fields.last()) {
            Some(kind) => earlier + spans_of(kind, text),
            None => earlier,
        }
    }
}

/// The source text of the pattern of `kind`.
pub fn pattern_str(kind: PiiField) -> (s: &'static str)
    ensures
        s@ == pattern(kind),
{
    match kind {
        PiiField::Email => "(?i)[\\w.+-]+@[\\w.-]+\\.\\w{2,}",
        PiiField::Phone => "\\b(?:\\+1[-.\\s]?)?\\(?\\d{3}\\)?[-.\\s]?\\d{3}[-.\\s]?\\d{4}\\b",
        PiiField::Ssn => "\\b\\d{3}[-]?\\d{2}[-]?\\d{4}\\b",
        PiiField::CreditCard => "\\b(?:\\d{4}[-\\s]?){3}\\d{4}\\b",
    }
}

/// The compiled matchers, one for each kind. It is built once and only read
/// afterwards.
pub struct PatternRegistry {
    email: Regex,
    phone: Regex,
    ssn: Regex,
    credit_card: Regex,
}

impl PatternRegistry {
    /// Each matcher was made from the pattern of its kind.
    #[verifier::type_invariant]
    spec fn well_formed(&self) -> bool {
        &&& pattern_of(self.email) == pattern(PiiField::Email)
        &&& pattern_of(self.phone) == pattern(PiiField::Phone)
        &&& pattern_of(self.ssn) == pattern(PiiField::Ssn)
        &&& pattern_of(self.credit_card) == pattern(PiiField::CreditCard)
    }

    /// Compiles the four patterns. There is a registry if and only if every
    /// pattern compiles; a pattern that the matcher library refuses is
    /// reported as a processing error.
    pub fn new() -> (r: Result<PatternRegistry, PiiError>)
        ensures
            r is Ok <==> patterns_compile(),
            r matches Err(e) ==> e matches PiiError::ProcessingError(reason) && reason@
                == refusal_reason(),
    {
        let email = Self::build(PiiField::Email)?;
        let phone = Self::build(PiiField::Phone)?;
        let ssn = Self::build(PiiField::Ssn)?;
        let credit_card = Self::build(PiiField::CreditCard)?;
        proof {
            assert forall|kind: PiiField| compiles(#[trigger] pattern(kind)) by {
                match kind {
                    PiiField::Email => {},
                    PiiField::Phone => {},
                    PiiField::Ssn => {},
                    PiiField::CreditCard => {},
                }
            }
        }
        Ok(PatternRegistry { email, phone, ssn, credit_card })
    }

    fn build(kind: PiiField) -> (r: Result<Regex, PiiError>)
        ensures
            r is Ok <==> compiles(pattern(kind)),
            r matches Ok(re) ==> pattern_of(re) == pattern(kind),
            r matches Err(e) ==> e matches PiiError::ProcessingError(reason) && reason@
                == refusal_reason(),
    {
        match compile(pattern_str(kind)) {
            Ok(re) => Ok(re),
            Err(_) => Err(
                PiiError::ProcessingError(String::from_str("a built-in pattern does not compile")),
            ),
        }
    }

    /// The pattern that the matcher of `kind` was compiled from.
    pub fn pattern(&self, kind: PiiField) -> (s: &str)
        ensures
            s@ == pattern(kind),
    {
        proof {
            use_type_invariant(self);
        }
        match kind {
            PiiField::Email => source(&self.email),
            PiiField::Phone => source(&self.phone),
            PiiField::Ssn => source(&self.ssn),
            PiiField::CreditCard => source(&self.credit_card),
        }
    }

    /// The spans of `kind` in `text`, from left to right.
    pub fn find(&self, kind: PiiField, text: &str) -> (spans: Vec<Span>)
        ensures
            spans@ == spans_of(kind, text@),
            all_fit(text@, spans@),
            left_to_right(spans@),
    {
        proof {
            use_type_invariant(self);
        }
        let found = match kind {
            PiiField::Email => find_all(&self.email, text),
            PiiField::Phone => find_all(&self.phone, text),
            PiiField::Ssn => find_all(&self.ssn, text),
            PiiField::CreditCard => find_all(&self.credit_card, text),
        };
        let mut spans: Vec<Span> = Vec::new();
        let mut i: usize = 0;
        while i < found.len()
            invariant
                i <= found.len(),
                spans@ == spans_of(kind, text@).take(i as int),
                found@ == regex_matches(pattern(kind), text@),
                all_fit(text@, spans@),
                forall|k: int|
                    0 <= k < found@.len() ==> span_fits(
                        text@,
                        (#[trigger] found@[k]).0 as int,
                        found@[k].1 as int,
                    ),
                forall|k: int, l: int|
                    0 <= k < l < found@.len() ==> (#[trigger] found@[k]).1 <= (
                    #[trigger] found@[l]).0,
            decreases found.len() - i,
        {
            let (start, end) = found[i];
            let ghost before = spans@;
            spans.push(Span { kind, start, end });
            i = i + 1;
            assert(spans@ =~= spans_of(kind, text@).take(i as int));
            assert forall|k: int| 0 <= k < spans@.len() implies span_fits(
                text@,
                (#[trigger] spans@[k]).start as int,
                spans@[k].end as int,
            ) by {
                if k < before.len() {
                    assert(spans@[k] == before[k]);
                }
            }
        }
        assert(spans@ =~= spans_of(kind, text@));
        assert forall|k: int, l: int| 0 <= k < l < spans@.len() implies (#[trigger] spans@[k]).end
            <= (#[trigger] spans@[l]).start by {
            assert(found@[k].1 <= found@[l].0);
        }
        spans
    }

    /// The spans that `fields` ask for in `text`. Identifiers are resolved
    /// without regard to case; one that names no kind is passed over.
    pub fn collect_spans(&self, text: &str, fields: &[String]) -> (spans: Vec<Span>)
        ensures
            spans@ == collect(text@, fields.deep_view()),
            all_fit(text@, spans@),
    {
        let ghost ids = fields.deep_view();
        let mut spans: Vec<Span> = Vec::new();
        let mut i: usize = 0;
        while i < fields.len()
            invariant
                i <= fields.len(),
                ids == fields.deep_view(),
                spans@ == collect(text@, ids.take(i as int)),
                all_fit(text@, spans@),
            decreases fields.len() - i,
        {
            proof {
                assert(ids.take(i + 1).drop_last() =~= ids.take(i as int));
                assert(ids.take(i + 1).last() == fields@[i as int]@);
            }
            match PiiField::try_from_str(fields[i].as_str()) {
                Ok(kind) => {
                    let mut found = self.find(kind, text);
                    let ghost before = spans@;
                    let ghost added = found@;
                    spans.append(&mut found);
                    assert forall|k: int| 0 <= k < spans@.len() implies span_fits(
                        text@,
                        (#[trigger] spans@[k]).start as int,
                        spans@[k].end as int,
                    ) by {
                        if k < before.len() {
                            assert(spans@[k] == before[k]);
                        } else {
                            assert(spans@[k] == added[k - before.len()]);
                        }
                    }
                },
                Err(_) => {},
            }
            i = i + 1;
        }
        assert(ids.take(i as int) =~= ids);
        spans
    }
}

} // verus!
