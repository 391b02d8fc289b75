//! The replacement engine: the ordered spans are replaced one by one in a
//! working copy of the text, and every substitution is recorded.

use crate::kinds::{PiiError, PiiField, PrivacyPolicy};
use crate::laws::{lemma_offsets_stay_valid, lemma_separate_spans_are_replaced};
use crate::matching::{
    all_fit, collect, patterns_compile, refusal_reason, PatternRegistry, Span,
};
use crate::ordering::{lemma_stable_desc, order_spans, right_to_left, separate, stable_desc};
use crate::replace::{is_hash_tag, replacement, replacement_for};
use crate::text::{byte_slice, cut, span_fits, splice};
use vstd::prelude::*;
use vstd::string::*;

verus! {

/// A request as the transport hands it over.
#[derive(Debug)]
pub struct PiiRequest {
    pub text: String,
    pub fields: Vec<String>,
    pub priv_policy: PrivacyPolicy,
}

/// The rewritten text, and for each substitution its kind, what stood there
/// and what stands there now, in the order in which they were made.
#[derive(Debug)]
pub struct PiiResponse {
    pub redacted: String,
    pub map: Vec<(String, String, String)>,
}

/// What a response holds, as plain sequences.
pub ghost struct Outcome {
    pub text: Seq<char>,
    pub records: Seq<(Seq<char>, Seq<char>, Seq<char>)>,
}

impl View for PiiResponse {
    type V = Outcome;

    open spec fn view(&self) -> Outcome {
        Outcome { text: self.redacted@, records: self.map.deep_view() }
    }
}

/// How many of `spans` are of `kind`.
pub open spec fn occurrences(spans: Seq<Span>, kind: PiiField) -> nat
    decreases spans.len(),
{
    if spans.len() == 0 {
        0
    } else if spans.last().kind == kind {
        occurrences(spans.drop_last(), kind) + 1
    } else {
        occurrences(spans.drop_last(), kind)
    }
}

/// One substitution: `span` is cut out of the text as it stands and gives way
/// to its replacement, `span` being the `nth` of its kind. There is none where
/// the span does not fit the text as it stands.
pub open spec fn apply_one(prev: Outcome, span: Span, policy: PrivacyPolicy, nth: nat) -> Option<
    Outcome,
> {
    if span_fits(prev.text, span.start as int, span.end as int) {
        let original = byte_slice(prev.text, span.start as int, span.end as int);
        let with = replacement_for(
            policy,
            span.kind,
            original,
            (span.end - span.start) as nat,
            nth,
        );
        Some(
            Outcome {
                text: splice(prev.text, span.start as int, span.end as int, with),
                records: prev.records.push((span.kind.label(), original, with)),
            },
        )
    } else {
        None
    }
}

/// The substitutions for `spans`, made in their order, each on the text that
/// the ones before it left. There is no outcome where one of them cannot be
/// made.
pub open spec fn apply_all(text: Seq<char>, spans: Seq<Span>, policy: PrivacyPolicy) -> Option<
    Outcome,
>
    decreases spans.len(),
{
    if spans.len() == 0 {
        Some(Outcome { text, records: Seq::empty() })
    } else {
        match apply_all(text, spans.drop_last(), policy) {
            Some(prev) => apply_one(
                prev,
                spans.last(),
                policy,
                occurrences(spans, spans.last().kind),
            ),
            None => None,
        }
    }
}

/// What detection and rewriting make of a text: the spans of the requested
/// kinds, by descending start, replaced in that order.
pub open spec fn transform(
    text: Seq<char>,
    fields: Seq<Seq<char>>,
    policy: PrivacyPolicy,
) -> Option<Outcome> {
    apply_all(text, stable_desc(collect(text, fields)), policy)
}

/// Whether `r` is the answer that is owed for `text`, `fields` and `policy`:
/// the outcome of the rewriting where there is one, a processing error with
/// its reason where there is none.
pub open spec fn is_answer(
    r: Result<PiiResponse, PiiError>,
    text: Seq<char>,
    fields: Seq<Seq<char>>,
    policy: PrivacyPolicy,
) -> bool {
    match r {
        Ok(response) => transform(text, fields, policy) == Some(response@),
        Err(PiiError::ProcessingError(reason)) => transform(text, fields, policy) is None
            && reason@ == misfit_reason(),
        Err(PiiError::InvalidFieldType(_)) => false,
    }
}

/// Whether every replacement that `outcome` records is made of eight
/// lower-case hex digits.
pub open spec fn tags_only(outcome: Outcome) -> bool {
    forall|i: int| 0 <= i < outcome.records.len() ==> is_hash_tag(#[trigger] outcome.records[i].2)
}

/// The reason given when a span does not fit the working text.
pub open spec fn misfit_reason() -> Seq<char> {
    "a span does not fit the working text"@
}

/// What the transport answers when the rewriting fails.
pub open spec fn failure_outcome() -> Outcome {
    Outcome {
        text: "Error processing PII request. Please check your input and try again."@,
        records: Seq::empty(),
    }
}

/// No kind occurs more often than there are spans.
pub proof fn lemma_occurrences_bound(spans: Seq<Span>, kind: PiiField)
    ensures
        occurrences(spans, kind) <= spans.len(),
    decreases spans.len(),
{
    if spans.len() > 0 {
        lemma_occurrences_bound(spans.drop_last(), kind);
    }
}

/// Once a substitution cannot be made, no later span brings an outcome back.
pub proof fn lemma_failure_stays(text: Seq<char>, spans: Seq<Span>, policy: PrivacyPolicy, n: int)
    requires
        0 <= n <= spans.len(),
        apply_all(text, spans.take(n), policy) is None,
    ensures
        apply_all(text, spans, policy) is None,
    decreases spans.len(),
{
    if n == spans.len() {
        assert(spans.take(n) =~= spans);
    } else {
        assert(spans.drop_last().take(n) =~= spans.take(n));
        lemma_failure_stays(text, spans.drop_last(), policy, n);
    }
}

/// The number of spans of each kind that were replaced so far.
struct Counters {
    email: usize,
    phone: usize,
    ssn: usize,
    credit_card: usize,
}

impl Counters {
    spec fn count(&self, kind: PiiField) -> nat {
        match kind {
            PiiField::Email => self.email as nat,
            PiiField::Phone => self.phone as nat,
            PiiField::Ssn => self.ssn as nat,
            PiiField::CreditCard => self.credit_card as nat,
        }
    }

    fn new() -> (counters: Counters)
        ensures
            forall|kind: PiiField| counters.count(kind) == 0,
    {
        Counters { email: 0, phone: 0, ssn: 0, credit_card: 0 }
    }

    /// Counts one more span of `kind` and gives the new count.
    fn bump(&mut self, kind: PiiField) -> (nth: usize)
        requires
            old(self).count(kind) < usize::MAX,
        ensures
            nth == old(self).count(kind) + 1,
            final(self).count(kind) == nth,
            forall|other: PiiField|
                other != kind ==> final(self).count(other) == old(self).count(other),
    {
        match kind {
            PiiField::Email => {
                self.email = self.email + 1;
                self.email
            },
            PiiField::Phone => {
                self.phone = self.phone + 1;
                self.phone
            },
            PiiField::Ssn => {
                self.ssn = self.ssn + 1;
                self.ssn
            },
            PiiField::CreditCard => {
                self.credit_card = self.credit_card + 1;
                self.credit_card
            },
        }
    }
}

/// Replaces `spans` in `text`, in the order given, each in the text as the
/// replacements before it left it, and records every substitution. A span
/// that does not fit the working text ends the call with a processing error.
pub fn apply_spans(text: &str, spans: &[Span], policy: PrivacyPolicy) -> (r: Result<
    PiiResponse,
    PiiError,
>)
    ensures
        match r {
            Ok(response) => apply_all(text@, spans@, policy) == Some(response@),
            Err(PiiError::ProcessingError(reason)) => apply_all(text@, spans@, policy) is None
                && reason@ == misfit_reason(),
            Err(PiiError::InvalidFieldType(_)) => false,
        },
        policy is Hash ==> (r matches Ok(response) ==> tags_only(response@)),
        all_fit(text@, spans@) && right_to_left(spans@) ==> r is Ok,
{
    proof {
        if all_fit(text@, spans@) && right_to_left(spans@) {
            lemma_offsets_stay_valid(text@, spans@, policy);
        }
    }
    let mut redacted = String::from_str(text);
    let mut map: Vec<(String, String, String)> = Vec::new();
    let mut counters = Counters::new();
    let mut i: usize = 0;
    assert(spans@.take(0) =~= Seq::<Span>::empty());
    assert(map.deep_view() =~= Seq::empty());
    while i < spans.len()
        invariant
            i <= spans.len(),
            apply_all(text@, spans@.take(i as int), policy) == Some(
                Outcome { text: redacted@, records: map.deep_view() },
            ),
            forall|kind: PiiField| counters.count(kind) == occurrences(spans@.take(i as int), kind),
            all_fit(text@, spans@) && right_to_left(spans@) ==> apply_all(
                text@,
                spans@,
                policy,
            ) is Some,
            policy is Hash ==> forall|k: int|
                0 <= k < map.deep_view().len() ==> is_hash_tag(#[trigger] map.deep_view()[k].2),
        decreases spans.len() - i,
    {
        let span = spans[i];
        let ghost done = spans@.take(i as int);
        let ghost upto = spans@.take(i + 1);
        proof {
            assert(upto.drop_last() =~= done);
            assert(upto.last() == span);
            lemma_occurrences_bound(done, span.kind);
        }
        let nth = counters.bump(span.kind);
        match cut(redacted.as_str(), span.start, span.end) {
            None => {
                proof {
                    lemma_failure_stays(text@, spans@, policy, i + 1);
                }
                return Err(
                    PiiError::ProcessingError(
                        String::from_str("a span does not fit the working text"),
                    ),
                );
            },
            Some((before, original, after)) => {
                let with = replacement(policy, span.kind, original, span.end - span.start, nth);
                let mut next = String::from_str(before);
                next.append(with.as_str());
                next.append(after);
                let ghost earlier = map.deep_view();
                let ghost record = (span.kind.label(), original@, with@);
                map.push((String::from_str(span.kind.as_str()), String::from_str(original), with));
                assert(map.deep_view() =~= earlier.push(record));
                proof {
                    if policy is Hash {
                        assert forall|k: int| 0 <= k < map.deep_view().len() implies is_hash_tag(
                            #[trigger] map.deep_view()[k].2,
                        ) by {
                            if k < earlier.len() {
                                assert(map.deep_view()[k] == earlier[k]);
                            }
                        }
                    }
                }
                redacted = next;
            },
        }
        i = i + 1;
    }
    assert(spans@.take(i as int) =~= spans@);
    Ok(PiiResponse { redacted, map })
}

impl PatternRegistry {
    /// Detects the spans of the requested kinds in `src` and rewrites them as
    /// `policy` says. Identifiers in `fields` that name no kind are passed
    /// over. The records come in the order of the substitutions: the
    /// rightmost span first.
    pub fn detect_and_transform(&self, src: &str, fields: &[String], policy: PrivacyPolicy) -> (r:
        Result<PiiResponse, PiiError>)
        ensures
            is_answer(r, src@, fields.deep_view(), policy),
            collect(src@, fields.deep_view()).len() == 0 ==> (r matches Ok(response)
                && response.redacted@ == src@ && response.map@.len() == 0),
            separate(collect(src@, fields.deep_view())) ==> r is Ok,
            policy is Hash ==> (r matches Ok(response) ==> tags_only(response@)),
    {
        let spans = self.collect_spans(src, fields);
        let ordered = order_spans(spans);
        let r = apply_spans(src, ordered.as_slice(), policy);
        proof {
            lemma_stable_desc(spans@);
            if separate(spans@) {
                lemma_separate_spans_are_replaced(src@, spans@, policy);
            }
            if spans@.len() == 0 {
                let response = r->Ok_0;
                assert(response@.records.len() == 0);
                assert(response.map.deep_view().len() == response.map@.len());
            }
        }
        r
    }

    /// Serves a request: the rewritten text and its records, or, where the
    /// rewriting fails, a fixed message and no record.
    pub fn respond(&self, request: &PiiRequest) -> (response: PiiResponse)
        ensures
            response@ == match transform(
                request.text@,
                request.fields.deep_view(),
                request.priv_policy,
            ) {
                Some(outcome) => outcome,
                None => failure_outcome(),
            },
    {
        match self.detect_and_transform(
            request.text.as_str(),
            request.fields.as_slice(),
            request.priv_policy,
        ) {
            Ok(response) => response,
            Err(_) => failure_response(),
        }
    }
}

/// The answer to a request that could not be served.
pub fn failure_response() -> (response: PiiResponse)
    ensures
        response@ == failure_outcome(),
{
    let map: Vec<(String, String, String)> = Vec::new();
    assert(map.deep_view() =~= Seq::empty());
    PiiResponse {
        redacted: String::from_str(
            "Error processing PII request. Please check your input and try again.",
        ),
        map,
    }
}

/// Compiles the patterns, then detects and rewrites as
/// [`PatternRegistry::detect_and_transform`] does. Where the patterns compile
/// the answer is the one that is owed for the arguments; where they do not,
/// the call ends with a processing error that says so.
pub fn detect_and_transform(src: &str, fields: &[String], policy: PrivacyPolicy) -> (r: Result<
    PiiResponse,
    PiiError,
>)
    ensures
        patterns_compile() ==> is_answer(r, src@, fields.deep_view(), policy),
        !patterns_compile() ==> (r matches Err(PiiError::ProcessingError(reason)) && reason@
            == refusal_reason()),
        r matches Err(e) ==> e is ProcessingError,
        patterns_compile() && collect(src@, fields.deep_view()).len() == 0 ==> (r matches Ok(
            response,
        ) && response.redacted@ == src@ && response.map@.len() == 0),
        patterns_compile() && separate(collect(src@, fields.deep_view())) ==> r is Ok,
        policy is Hash ==> (r matches Ok(response) ==> tags_only(response@)),
{
    let registry = PatternRegistry::new()?;
    registry.detect_and_transform(src, fields, policy)
}

/// Serves a request with patterns compiled for it. Where the patterns compile
/// and the rewriting has an outcome, the response is that outcome itself; in
/// every other case it is the fixed message with no record.
pub fn process_pii(request: &PiiRequest) -> (response: PiiResponse)
    ensures
        patterns_compile() ==> response@ == match transform(
            request.text@,
            request.fields.deep_view(),
            request.priv_policy,
        ) {
            Some(outcome) => outcome,
            None => failure_outcome(),
        },
        !patterns_compile() ==> response@ == failure_outcome(),
{
    match detect_and_transform(
        request.text.as_str(),
        request.fields.as_slice(),
        request.priv_policy,
    ) {
        Ok(response) => response,
        Err(_) => failure_response(),
    }
}

/// The greeting of the service.
pub fn root() -> (greeting: &'static str)
    ensures
        greeting@ == "Hello from PII Processor!"@,
{
    "Hello from PII Processor!"
}

} // verus!
