//! What holds of detection and rewriting as a whole.

use crate::engine::{apply_all, is_answer, occurrences, transform, Outcome, PiiResponse};
use crate::kinds::{PiiError, PiiField, PrivacyPolicy};
use crate::matching::{all_fit, collect, left_to_right, Span};
use crate::ordering::{
    insert_desc, lemma_insert_at_slot, lemma_stable_desc, lemma_stable_desc_members,
    right_to_left, separate, slot, stable_desc,
};
use crate::replace::{hash_tag, placeholder, redaction, replacement_for};
use crate::text::{
    byte_slice, lemma_boundary_at_join, lemma_boundary_in_prefix, lemma_boundary_of_prefix,
    lemma_slice_bytes, lemma_splice_bytes, span_fits, splice,
};
use vstd::prelude::*;
use vstd::utf8::*;

verus! {

/// A text in which nothing of the requested kinds is found comes back as it
/// is, with no record, under every policy.
pub proof fn lemma_no_match_no_change(
    text: Seq<char>,
    fields: Seq<Seq<char>>,
    policy: PrivacyPolicy,
)
    ensures
        collect(text, fields).len() == 0 ==> transform(text, fields, policy) == Some(
            Outcome { text, records: Seq::empty() },
        ),
{
    lemma_stable_desc(collect(text, fields));
}

/// There is one record for each span, in the order of the spans. It carries
/// the label of the span's kind, and its replacement is the one that the
/// policy gives for what the record says stood there, for the width of the
/// span, and for the number of spans of that kind up to this one.
pub proof fn lemma_records(text: Seq<char>, spans: Seq<Span>, policy: PrivacyPolicy)
    ensures
        apply_all(text, spans, policy) matches Some(outcome) ==> {
            &&& outcome.records.len() == spans.len()
            &&& forall|i: int|
                0 <= i < spans.len() ==> {
                    &&& (#[trigger] outcome.records[i]).0 == spans[i].kind.label()
                    &&& outcome.records[i].2 == replacement_for(
                        policy,
                        spans[i].kind,
                        outcome.records[i].1,
                        (spans[i].end - spans[i].start) as nat,
                        occurrences(spans.take(i + 1), spans[i].kind),
                    )
                }
        },
    decreases spans.len(),
{
    if spans.len() > 0 {
        let front = spans.drop_last();
        lemma_records(text, front, policy);
        if let Some(outcome) = apply_all(text, spans, policy) {
            let prev = apply_all(text, front, policy)->Some_0;
            assert(spans.take(spans.len() as int) =~= spans);
            assert forall|i: int| 0 <= i < spans.len() implies {
                &&& (#[trigger] outcome.records[i]).0 == spans[i].kind.label()
                &&& outcome.records[i].2 == replacement_for(
                    policy,
                    spans[i].kind,
                    outcome.records[i].1,
                    (spans[i].end - spans[i].start) as nat,
                    occurrences(spans.take(i + 1), spans[i].kind),
                )
            } by {
                if i < front.len() {
                    assert(outcome.records[i] == prev.records[i]);
                    assert(front.take(i + 1) =~= spans.take(i + 1));
                }
            }
        }
    }
}

/// Under the redact policy every replacement is the filler, once for each
/// byte between the start and the end of its span.
pub proof fn lemma_redaction_has_the_width_of_the_span(text: Seq<char>, spans: Seq<Span>)
    ensures
        apply_all(text, spans, PrivacyPolicy::Redact) matches Some(outcome) ==> forall|i: int|
            0 <= i < spans.len() ==> (#[trigger] outcome.records[i]).2 == redaction(
                (spans[i].end - spans[i].start) as nat,
            ),
{
    lemma_records(text, spans, PrivacyPolicy::Redact);
}

/// Under the anonymize policy every replacement is the placeholder of its
/// kind with the number of spans of that kind up to this one.
pub proof fn lemma_placeholders_count_by_kind(text: Seq<char>, spans: Seq<Span>)
    ensures
        apply_all(text, spans, PrivacyPolicy::Anonymize) matches Some(outcome) ==> forall|i: int|
            0 <= i < spans.len() ==> (#[trigger] outcome.records[i]).2 == placeholder(
                spans[i].kind,
                occurrences(spans.take(i + 1), spans[i].kind),
            ),
{
    lemma_records(text, spans, PrivacyPolicy::Anonymize);
}

/// The count of a kind never falls as more spans are taken in.
pub proof fn lemma_occurrences_grow(spans: Seq<Span>, kind: PiiField, i: int, j: int)
    requires
        0 <= i <= j <= spans.len(),
    ensures
        occurrences(spans.take(i), kind) <= occurrences(spans.take(j), kind),
    decreases j - i,
{
    if i < j {
        lemma_occurrences_grow(spans, kind, i, j - 1);
        assert(spans.take(j).drop_last() =~= spans.take(j - 1));
    }
}

/// The numbers that the spans of one kind are given start at 1 and rise by
/// one from each span of the kind to the next, in the order in which the
/// spans are replaced; so no two spans of a kind share a number.
pub proof fn lemma_counters_rise(spans: Seq<Span>, i: int, j: int)
    requires
        0 <= i < j < spans.len(),
        spans[i].kind == spans[j].kind,
    ensures
        1 <= occurrences(spans.take(i + 1), spans[i].kind) < occurrences(
            spans.take(j + 1),
            spans[j].kind,
        ),
        (forall|k: int| 0 <= k < i ==> spans[k].kind != spans[i].kind) ==> occurrences(
            spans.take(i + 1),
            spans[i].kind,
        ) == 1,
        (forall|k: int| i < k < j ==> spans[k].kind != spans[i].kind) ==> occurrences(
            spans.take(j + 1),
            spans[j].kind,
        ) == occurrences(spans.take(i + 1), spans[i].kind) + 1,
{
    let kind = spans[i].kind;
    assert(spans.take(i + 1).drop_last() =~= spans.take(i));
    assert(spans.take(j + 1).drop_last() =~= spans.take(j));
    lemma_occurrences_grow(spans, kind, i + 1, j);
    if forall|k: int| 0 <= k < i ==> spans[k].kind != kind {
        lemma_occurrences_of_absent_kind(spans, kind, 0, i);
        assert(spans.take(0) =~= Seq::<Span>::empty());
    }
    if forall|k: int| i < k < j ==> spans[k].kind != kind {
        lemma_occurrences_of_absent_kind(spans, kind, i + 1, j);
    }
}

/// Spans of other kinds leave the count of a kind as it is.
pub proof fn lemma_occurrences_of_absent_kind(spans: Seq<Span>, kind: PiiField, i: int, j: int)
    requires
        0 <= i <= j <= spans.len(),
        forall|k: int| i <= k < j ==> spans[k].kind != kind,
    ensures
        occurrences(spans.take(j), kind) == occurrences(spans.take(i), kind),
    decreases j - i,
{
    if i < j {
        lemma_occurrences_of_absent_kind(spans, kind, i, j - 1);
        assert(spans.take(j).drop_last() =~= spans.take(j - 1));
    }
}

/// Under the hash policy the replacement depends on nothing but what stood in
/// the span: equal originals have equal tags, whatever their kinds, places
/// and calls.
pub proof fn lemma_equal_originals_equal_tags(
    first: Seq<char>,
    first_kind: PiiField,
    first_width: nat,
    first_nth: nat,
    second: Seq<char>,
    second_kind: PiiField,
    second_width: nat,
    second_nth: nat,
)
    requires
        first == second,
    ensures
        replacement_for(PrivacyPolicy::Hash, first_kind, first, first_width, first_nth)
            == replacement_for(PrivacyPolicy::Hash, second_kind, second, second_width, second_nth),
        replacement_for(PrivacyPolicy::Hash, first_kind, first, first_width, first_nth) == hash_tag(
            first,
        ),
{
}

/// The answer is a function of the arguments: two answers that are owed for
/// the same text, identifiers and policy both fail with the same reason, or
/// both hold the same text and the same records.
pub proof fn lemma_same_arguments_same_answer(
    text: Seq<char>,
    fields: Seq<Seq<char>>,
    policy: PrivacyPolicy,
    first: Result<PiiResponse, PiiError>,
    second: Result<PiiResponse, PiiError>,
)
    ensures
        is_answer(first, text, fields, policy) && is_answer(second, text, fields, policy) ==> {
            &&& first is Ok <==> second is Ok
            &&& first is Ok ==> first->Ok_0.redacted@ == second->Ok_0.redacted@
                && first->Ok_0.map.deep_view() == second->Ok_0.map.deep_view()
            &&& first is Err ==> first->Err_0.message() == second->Err_0.message()
        },
{
}

/// An identifier that names no kind changes nothing: the spans collected, and
/// with them the outcome, are those of the identifiers without it.
pub proof fn lemma_unknown_identifier_is_skipped(
    text: Seq<char>,
    fields: Seq<Seq<char>>,
    at: int,
    policy: PrivacyPolicy,
)
    requires
        0 <= at < fields.len(),
    ensures
        PiiField::parse(fields[at]) is None ==> collect(text, fields.remove(at)) == collect(
            text,
            fields,
        ),
        PiiField::parse(fields[at]) is None ==> transform(text, fields.remove(at), policy)
            == transform(text, fields, policy),
    decreases fields.len(),
{
    if PiiField::parse(fields[at]) is None {
        if at == fields.len() - 1 {
            assert(fields.remove(at) =~= fields.drop_last());
        } else {
            lemma_unknown_identifier_is_skipped(text, fields.drop_last(), at, policy);
            assert(fields.remove(at).drop_last() =~= fields.drop_last().remove(at));
            assert(fields.remove(at).last() == fields.last());
        }
    }
}

/// Offsets stay valid: where spans that fit the text are replaced from right
/// to left and do not overlap, every substitution can be made, every record
/// holds what the text itself held at its span, and the text before the span
/// replaced last is still as it was.
pub proof fn lemma_offsets_stay_valid(text: Seq<char>, spans: Seq<Span>, policy: PrivacyPolicy)
    requires
        all_fit(text, spans),
        right_to_left(spans),
    ensures
        apply_all(text, spans, policy) is Some,
        forall|i: int|
            0 <= i < spans.len() ==> (#[trigger] apply_all(
                text,
                spans,
                policy,
            )->Some_0.records[i]).1 == byte_slice(text, spans[i].start as int, spans[i].end as int),
        spans.len() > 0 ==> {
            let rewritten = encode_utf8(apply_all(text, spans, policy)->Some_0.text);
            let upto = spans.last().start as int;
            &&& upto <= rewritten.len()
            &&& is_char_boundary(rewritten, upto)
            &&& rewritten.subrange(0, upto) == encode_utf8(text).subrange(0, upto)
        },
    decreases spans.len(),
{
    if spans.len() > 0 {
        let front = spans.drop_last();
        let span = spans.last();
        let (start, end) = (span.start as int, span.end as int);
        lemma_offsets_stay_valid(text, front, policy);
        lemma_records(text, front, policy);
        let prev = apply_all(text, front, policy)->Some_0;
        let bytes = encode_utf8(text);
        let held = encode_utf8(prev.text);
        encode_utf8_valid_utf8(text);
        encode_utf8_valid_utf8(prev.text);
        assert(span_fits(text, start, end));
        // The bytes up to the end of the span are those of the text itself.
        let upto = if front.len() > 0 {
            front.last().start as int
        } else {
            bytes.len() as int
        };
        assert(end <= upto);
        if front.len() == 0 {
            assert(prev.text == text);
            is_char_boundary_start_end_of_seq(bytes);
            assert(bytes.subrange(0, upto) =~= bytes);
        }
        assert(held.subrange(0, upto) == bytes.subrange(0, upto));
        assert(is_char_boundary(bytes, upto)) by {
            if front.len() > 0 {
                assert(span_fits(text, front.last().start as int, front.last().end as int));
            }
        }
        lemma_boundary_in_prefix(bytes, start, upto);
        lemma_boundary_in_prefix(bytes, end, upto);
        lemma_boundary_of_prefix(held, start, upto);
        lemma_boundary_of_prefix(held, end, upto);
        assert(span_fits(prev.text, start, end));
        assert(held.subrange(start, end) =~= held.subrange(0, upto).subrange(start, end));
        assert(bytes.subrange(start, end) =~= bytes.subrange(0, upto).subrange(start, end));
        let original = byte_slice(prev.text, start, end);
        assert(original == byte_slice(text, start, end));
        let with = replacement_for(
            policy,
            span.kind,
            original,
            (end - start) as nat,
            occurrences(spans, span.kind),
        );
        let next = apply_all(text, spans, policy)->Some_0;
        assert(next.text == splice(prev.text, start, end, with));
        assert(next.records == prev.records.push((span.kind.label(), original, with)));
        lemma_splice_bytes(prev.text, start, end, with);
        is_char_boundary_start_end_of_seq(held);
        lemma_slice_bytes(prev.text, 0, start);
        let rewritten = encode_utf8(next.text);
        let head = held.subrange(0, start);
        let tail = encode_utf8(with) + held.subrange(end, held.len() as int);
        assert(rewritten =~= head + tail);
        assert(valid_utf8(tail)) by {
            encode_utf8_valid_utf8(with);
            is_char_boundary_start_end_of_seq(held);
            lemma_slice_bytes(prev.text, end, held.len() as int);
            valid_utf8_concat(encode_utf8(with), held.subrange(end, held.len() as int));
        }
        lemma_boundary_at_join(head, tail);
        assert(rewritten.subrange(0, start) =~= head);
        assert(head =~= held.subrange(0, upto).subrange(0, start));
        assert(bytes.subrange(0, start) =~= bytes.subrange(0, upto).subrange(0, start));
        assert forall|i: int| 0 <= i < spans.len() implies (#[trigger] next.records[i]).1
            == byte_slice(text, spans[i].start as int, spans[i].end as int) by {
            if i < front.len() {
                assert(next.records[i] == prev.records[i]);
                assert(front[i] == spans[i]);
            }
        }
    }
}

/// Spans that come from left to right, none reaching into a later one, share
/// no byte; so the spans that one kind gives on a text do not, where none of
/// them is empty.
pub proof fn lemma_left_to_right_spans_are_separate(spans: Seq<Span>)
    requires
        left_to_right(spans),
        forall|i: int| 0 <= i < spans.len() ==> (#[trigger] spans[i]).start < spans[i].end,
    ensures
        separate(spans),
{
}

/// A span that shares no byte with spans standing from right to left goes
/// between them where the order by start puts it.
pub proof fn lemma_insert_keeps_right_to_left(sorted: Seq<Span>, span: Span)
    requires
        right_to_left(sorted),
        separate(sorted.push(span)),
    ensures
        right_to_left(insert_desc(sorted, span)),
{
    lemma_insert_at_slot(sorted, span);
    let at = slot(sorted, span);
    let out = sorted.insert(at, span);
    let all = sorted.push(span);
    assert(all[sorted.len() as int] == span);
    assert forall|i: int, j: int| 0 <= i < j < out.len() implies out[j].end <= out[i].start by {
        if j == at {
            // `out[i]` stands before the slot: it starts at or after `span`.
            assert(out[i] == sorted[i] && all[i] == sorted[i]);
            assert(sorted[at - 1] == all[at - 1]);
            if i < at - 1 {
                assert(sorted[at - 1].end <= sorted[i].start);
            }
            assert(sorted[i].start >= span.start);
        } else if i == at {
            // `out[j]` stands behind the slot: it starts before `span`.
            assert(out[j] == sorted[j - 1] && all[j - 1] == sorted[j - 1]);
            assert(sorted[j - 1].start < span.start);
        } else {
            let (a, b) = (if i < at { i } else { i - 1 }, if j < at { j } else { j - 1 });
            assert(out[i] == sorted[a] && out[j] == sorted[b]);
        }
    }
}

/// Ordered by descending start, spans that share no byte stand from right to
/// left.
pub proof fn lemma_separate_spans_stand_right_to_left(spans: Seq<Span>)
    requires
        separate(spans),
    ensures
        right_to_left(stable_desc(spans)),
    decreases spans.len(),
{
    if spans.len() > 0 {
        let front = spans.drop_last();
        let span = spans.last();
        assert forall|i: int| 0 <= i < front.len() implies front[i] == spans[i] by {}
        assert(separate(front));
        lemma_separate_spans_stand_right_to_left(front);
        let sorted = stable_desc(front);
        lemma_stable_desc(front);
        let all = sorted.push(span);
        assert forall|i: int| 0 <= i < all.len() implies (#[trigger] all[i]).start
            < all[i].end by {
            if i < sorted.len() {
                lemma_stable_desc_members(front, i);
                let k = choose|k: int| 0 <= k < front.len() && front[k] == sorted[i];
                assert(spans[k] == front[k]);
            }
        }
        assert forall|i: int, j: int| 0 <= i < j < all.len() implies (#[trigger] all[i]).end <= (
        #[trigger] all[j]).start || all[j].end <= all[i].start by {
            if j < sorted.len() {
                assert(sorted[j].end <= sorted[i].start);
            } else {
                lemma_stable_desc_members(front, i);
                let k = choose|k: int| 0 <= k < front.len() && front[k] == sorted[i];
                assert(spans[k] == front[k]);
                assert(spans[k].end <= spans[spans.len() - 1].start || spans[spans.len() - 1].end
                    <= spans[k].start);
            }
        }
        lemma_insert_keeps_right_to_left(sorted, span);
    } else {
        assert(stable_desc(spans).len() == 0);
    }
}

/// Spans that fit the text and share no byte are all replaced, whatever the
/// order in which they were collected, and every record holds what the text
/// itself held at its span.
pub proof fn lemma_separate_spans_are_replaced(
    text: Seq<char>,
    spans: Seq<Span>,
    policy: PrivacyPolicy,
)
    requires
        all_fit(text, spans),
        separate(spans),
    ensures
        apply_all(text, stable_desc(spans), policy) matches Some(outcome) && {
            &&& outcome.records.len() == spans.len()
            &&& forall|i: int|
                0 <= i < spans.len() ==> (#[trigger] outcome.records[i]).1 == byte_slice(
                    text,
                    stable_desc(spans)[i].start as int,
                    stable_desc(spans)[i].end as int,
                )
        },
{
    let ordered = stable_desc(spans);
    lemma_stable_desc(spans);
    lemma_separate_spans_stand_right_to_left(spans);
    assert forall|i: int| 0 <= i < ordered.len() implies span_fits(
        text,
        (#[trigger] ordered[i]).start as int,
        ordered[i].end as int,
    ) by {
        lemma_stable_desc_members(spans, i);
        let k = choose|k: int| 0 <= k < spans.len() && spans[k] == ordered[i];
        assert(span_fits(text, spans[k].start as int, spans[k].end as int));
    }
    lemma_offsets_stay_valid(text, ordered, policy);
    lemma_records(text, ordered, policy);
}

} // verus!
