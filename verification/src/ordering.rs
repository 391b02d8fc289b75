//! The order in which spans are replaced: by descending start, spans of one
//! start in the order in which they were collected.

use crate::matching::Span;
use vstd::prelude::*;

verus! {

/// Whether the starts of `spans` never rise from one span to the next.
pub open spec fn descending(spans: Seq<Span>) -> bool {
    forall|i: int, j: int| 0 <= i < j < spans.len() ==> spans[i].start >= spans[j].start
}

/// Whether every span ends at or before the start of each span that comes
/// before it in the sequence: the order from right to left of spans that do
/// not overlap.
pub open spec fn right_to_left(spans: Seq<Span>) -> bool {
    forall|i: int, j: int| 0 <= i < j < spans.len() ==> spans[j].end <= spans[i].start
}

/// Whether no span is empty and no two spans share a byte.
pub open spec fn separate(spans: Seq<Span>) -> bool {
    &&& forall|i: int| 0 <= i < spans.len() ==> (#[trigger] spans[i]).start < spans[i].end
    &&& forall|i: int, j: int|
        0 <= i < j < spans.len() ==> (#[trigger] spans[i]).end <= (#[trigger] spans[j]).start
            || spans[j].end <= spans[i].start
}

/// `sorted` with `span` put behind every span that starts at or after it.
pub open spec fn insert_desc(sorted: Seq<Span>, span: Span) -> Seq<Span>
    decreases sorted.len(),
{
    if sorted.len() == 0 {
        seq![span]
    } else if sorted.last().start >= span.start {
        sorted.push(span)
    } else {
        insert_desc(sorted.drop_last(), span).push(sorted.last())
    }
}

/// `spans` by descending start; among spans of one start the earlier stays
/// the earlier.
pub open spec fn stable_desc(spans: Seq<Span>) -> Seq<Span>
    decreases spans.len(),
{
    if spans.len() == 0 {
        Seq::empty()
    } else {
        insert_desc(stable_desc(spans.drop_last()), spans.last())
    }
}

/// Where `span` goes in `sorted`: behind the last span that starts at or
/// after it.
pub open spec fn slot(sorted: Seq<Span>, span: Span) -> int
    decreases sorted.len(),
{
    if sorted.len() == 0 {
        0
    } else if sorted.last().start >= span.start {
        sorted.len() as int
    } else {
        slot(sorted.drop_last(), span)
    }
}

/// Putting a span in is an insertion at its slot; every span before the slot
/// starts at or after it if the spans were in order, and every span behind
/// the slot starts before it.
pub proof fn lemma_insert_at_slot(sorted: Seq<Span>, span: Span)
    ensures
        0 <= slot(sorted, span) <= sorted.len(),
        insert_desc(sorted, span) == sorted.insert(slot(sorted, span), span),
        forall|i: int| slot(sorted, span) <= i < sorted.len() ==> sorted[i].start < span.start,
        slot(sorted, span) > 0 ==> sorted[slot(sorted, span) - 1].start >= span.start,
    decreases sorted.len(),
{
    if sorted.len() == 0 {
        assert(seq![span] =~= sorted.insert(0, span));
    } else if sorted.last().start >= span.start {
        assert(sorted.push(span) =~= sorted.insert(sorted.len() as int, span));
    } else {
        let front = sorted.drop_last();
        lemma_insert_at_slot(front, span);
        let at = slot(front, span);
        assert(front.insert(at, span).push(sorted.last()) =~= sorted.insert(at, span));
        assert forall|i: int| at <= i < sorted.len() implies sorted[i].start < span.start by {
            if i < front.len() {
                assert(front[i] == sorted[i]);
            }
        }
        if at > 0 {
            assert(front[at - 1] == sorted[at - 1]);
        }
    }
}

/// The spans of `sorted` and `span`, and no others, are in the result of
/// putting `span` in, and the result is in order if `sorted` was.
pub proof fn lemma_insert_desc(sorted: Seq<Span>, span: Span)
    ensures
        insert_desc(sorted, span).len() == sorted.len() + 1,
        insert_desc(sorted, span).to_multiset() == sorted.to_multiset().insert(span),
        descending(sorted) ==> descending(insert_desc(sorted, span)),
{
    broadcast use vstd::seq_lib::group_to_multiset_ensures;

    lemma_insert_at_slot(sorted, span);
    let at = slot(sorted, span);
    let out = sorted.insert(at, span);
    vstd::seq_lib::to_multiset_insert(sorted, at, span);
    if descending(sorted) {
        assert forall|i: int, j: int| 0 <= i < j < out.len() implies out[i].start
            >= out[j].start by {
            if j == at {
                if i < at && at > 0 {
                    assert(sorted[i].start >= sorted[at - 1].start || i == at - 1);
                }
            }
        }
    }
}

/// The ordered spans are the collected spans in another order, and their
/// starts never rise.
pub proof fn lemma_stable_desc(spans: Seq<Span>)
    ensures
        stable_desc(spans).len() == spans.len(),
        stable_desc(spans).to_multiset() == spans.to_multiset(),
        descending(stable_desc(spans)),
    decreases spans.len(),
{
    broadcast use vstd::seq_lib::group_to_multiset_ensures;

    if spans.len() == 0 {
        assert(spans =~= Seq::empty());
    } else {
        let front = spans.drop_last();
        lemma_stable_desc(front);
        lemma_insert_desc(stable_desc(front), spans.last());
        assert(front.push(spans.last()) =~= spans);
    }
}

/// The spans of `spans` that start at `start`, in their order.
pub open spec fn starting_at(spans: Seq<Span>, start: usize) -> Seq<Span>
    decreases spans.len(),
{
    if spans.len() == 0 {
        Seq::empty()
    } else if spans.last().start == start {
        starting_at(spans.drop_last(), start).push(spans.last())
    } else {
        starting_at(spans.drop_last(), start)
    }
}

/// Among the spans of its own start, a span that is put in comes last.
pub proof fn lemma_insert_desc_keeps_ties(sorted: Seq<Span>, span: Span, start: usize)
    ensures
        starting_at(insert_desc(sorted, span), start) == starting_at(sorted.push(span), start),
    decreases sorted.len(),
{
    assert(sorted.push(span).drop_last() =~= sorted);
    if sorted.len() == 0 {
        assert(seq![span] =~= sorted.push(span));
    } else if sorted.last().start >= span.start {
    } else {
        let front = sorted.drop_last();
        let last = sorted.last();
        let mid = insert_desc(front, span);
        assert(insert_desc(sorted, span) == mid.push(last));
        assert(starting_at(sorted.push(span), start) == if span.start == start {
            starting_at(sorted, start).push(span)
        } else {
            starting_at(sorted, start)
        });
        assert(starting_at(sorted, start) == if last.start == start {
            starting_at(front, start).push(last)
        } else {
            starting_at(front, start)
        });
        lemma_insert_desc_keeps_ties(front, span, start);
        assert(mid.push(last).drop_last() =~= mid);
        assert(mid.push(last).last() == last);
        assert(front.push(span).drop_last() =~= front);
        assert(front.push(span).last() == span);
        assert(sorted.push(span).last() == span);
        assert(starting_at(mid.push(last), start) == if last.start == start {
            starting_at(mid, start).push(last)
        } else {
            starting_at(mid, start)
        });
        assert(starting_at(front.push(span), start) == if span.start == start {
            starting_at(front, start).push(span)
        } else {
            starting_at(front, start)
        });
    }
}

/// The order is stable: the spans of one start stand in the ordered sequence
/// as they stood in the collected one.
pub proof fn lemma_stable_desc_keeps_ties(spans: Seq<Span>, start: usize)
    ensures
        starting_at(stable_desc(spans), start) == starting_at(spans, start),
    decreases spans.len(),
{
    if spans.len() > 0 {
        let front = spans.drop_last();
        lemma_stable_desc_keeps_ties(front, start);
        lemma_insert_desc_keeps_ties(stable_desc(front), spans.last(), start);
        assert(stable_desc(front).push(spans.last()).drop_last() =~= stable_desc(front));
    }
}

/// Every ordered span is one of the collected spans.
pub proof fn lemma_stable_desc_members(spans: Seq<Span>, i: int)
    requires
        0 <= i < spans.len(),
    ensures
        stable_desc(spans).len() == spans.len(),
        spans.contains(stable_desc(spans)[i]),
{
    lemma_stable_desc(spans);
    let ordered = stable_desc(spans);
    assert(ordered.contains(ordered[i]));
    vstd::seq_lib::to_multiset_contains(ordered, ordered[i]);
    vstd::seq_lib::to_multiset_contains(spans, ordered[i]);
}

/// Two ordered sequences as one: the spans of both by descending start, a
/// span of `later` behind the spans of `earlier` that start where it starts.
pub open spec fn merge_desc(earlier: Seq<Span>, later: Seq<Span>) -> Seq<Span>
    decreases earlier.len() + later.len(),
{
    if earlier.len() == 0 {
        later
    } else if later.len() == 0 {
        earlier
    } else if later.last().start <= earlier.last().start {
        merge_desc(earlier, later.drop_last()).push(later.last())
    } else {
        merge_desc(earlier.drop_last(), later).push(earlier.last())
    }
}

/// Merging loses no span and adds none.
pub proof fn lemma_merge_desc_len(earlier: Seq<Span>, later: Seq<Span>)
    ensures
        merge_desc(earlier, later).len() == earlier.len() + later.len(),
    decreases earlier.len() + later.len(),
{
    if earlier.len() == 0 || later.len() == 0 {
    } else if later.last().start <= earlier.last().start {
        lemma_merge_desc_len(earlier, later.drop_last());
    } else {
        lemma_merge_desc_len(earlier.drop_last(), later);
    }
}

/// A span put into a merged sequence stands where it stands when it is put
/// into the later of the two sequences before they are merged.
pub proof fn lemma_insert_into_merge(earlier: Seq<Span>, later: Seq<Span>, span: Span)
    ensures
        insert_desc(merge_desc(earlier, later), span) == merge_desc(
            earlier,
            insert_desc(later, span),
        ),
    decreases earlier.len() + later.len(),
{
    let put = insert_desc(later, span);
    let merged = merge_desc(earlier, later);
    if later.len() == 0 {
        assert(put =~= seq![span]);
        assert(put.last() == span);
        assert(put.drop_last() =~= later);
        if earlier.len() > 0 {
            assert(merged == earlier);
            if span.start <= earlier.last().start {
                assert(merge_desc(earlier, later) == earlier);
            } else {
                let front = earlier.drop_last();
                lemma_insert_into_merge(front, later, span);
                assert(merge_desc(front, later) =~= front);
            }
        }
    } else if earlier.len() == 0 {
        lemma_insert_desc(later, span);
    } else if later.last().start <= earlier.last().start {
        let rest = merge_desc(earlier, later.drop_last());
        assert(merged == rest.push(later.last()));
        assert(merged.last() == later.last());
        assert(merged.drop_last() =~= rest);
        if later.last().start >= span.start {
            assert(put == later.push(span));
            assert(put.last() == span);
            assert(put.drop_last() =~= later);
        } else {
            let front = insert_desc(later.drop_last(), span);
            lemma_insert_into_merge(earlier, later.drop_last(), span);
            assert(put == front.push(later.last()));
            assert(put.last() == later.last());
            assert(put.drop_last() =~= front);
        }
    } else {
        let rest = merge_desc(earlier.drop_last(), later);
        assert(merged == rest.push(earlier.last()));
        assert(merged.last() == earlier.last());
        assert(merged.drop_last() =~= rest);
        lemma_insert_desc(later, span);
        if earlier.last().start >= span.start {
            assert(put == later.push(span));
            assert(put.last() == span);
            assert(put.drop_last() =~= later);
        } else {
            lemma_insert_into_merge(earlier.drop_last(), later, span);
            if later.last().start >= span.start {
                assert(put == later.push(span));
                assert(put.last() == span);
            } else {
                let front = insert_desc(later.drop_last(), span);
                assert(put == front.push(later.last()));
                assert(put.last() == later.last());
            }
            assert(merge_desc(earlier, put) == merge_desc(earlier.drop_last(), put).push(
                earlier.last(),
            ));
        }
    }
}

/// Ordering two sequences in a row is ordering each and merging the two.
pub proof fn lemma_stable_desc_of_concat(earlier: Seq<Span>, later: Seq<Span>)
    ensures
        stable_desc(earlier + later) == merge_desc(stable_desc(earlier), stable_desc(later)),
    decreases later.len(),
{
    if later.len() == 0 {
        assert(earlier + later =~= earlier);
    } else {
        let front = later.drop_last();
        assert((earlier + later).drop_last() =~= earlier + front);
        lemma_stable_desc_of_concat(earlier, front);
        lemma_insert_into_merge(stable_desc(earlier), stable_desc(front), later.last());
    }
}

/// Merges two ordered sequences of spans.
fn merge(earlier: &Vec<Span>, later: &Vec<Span>) -> (out: Vec<Span>)
    requires
        earlier@.len() + later@.len() <= usize::MAX,
    ensures
        out@ == merge_desc(earlier@, later@),
{
    let ghost merged = merge_desc(earlier@, later@);
    proof {
        lemma_merge_desc_len(earlier@, later@);
        assert(earlier@.take(earlier@.len() as int) =~= earlier@);
        assert(later@.take(later@.len() as int) =~= later@);
    }
    // The merged spans from the last to the first.
    let mut backwards: Vec<Span> = Vec::new();
    let mut i: usize = earlier.len();
    let mut j: usize = later.len();
    while i > 0 || j > 0
        invariant
            i <= earlier@.len(),
            j <= later@.len(),
            merged == merge_desc(earlier@, later@),
            merged.len() == earlier@.len() + later@.len(),
            merged.len() <= usize::MAX,
            backwards@.len() == merged.len() - (i + j),
            merge_desc(earlier@.take(i as int), later@.take(j as int)) == merged.take(i + j),
            forall|k: int|
                0 <= k < backwards@.len() ==> #[trigger] backwards@[k] == merged[merged.len() - 1
                    - k],
        decreases i + j,
    {
        let ghost (a, b) = (earlier@.take(i as int), later@.take(j as int));
        let from_later = if i == 0 {
            true
        } else if j == 0 {
            false
        } else {
            later[j - 1].start <= earlier[i - 1].start
        };
        let span = if from_later {
            later[j - 1]
        } else {
            earlier[i - 1]
        };
        proof {
            let (a_next, b_next) = if from_later {
                (a, later@.take(j - 1))
            } else {
                (earlier@.take(i - 1), b)
            };
            if from_later {
                assert(b.drop_last() =~= b_next);
            } else {
                assert(a.drop_last() =~= a_next);
            }
            assert(merge_desc(a, b) =~= merge_desc(a_next, b_next).push(span));
            lemma_merge_desc_len(a_next, b_next);
            assert(merged.take(i + j)[i + j - 1] == span);
            assert(merge_desc(a_next, b_next) =~= merged.take(i + j - 1));
        }
        backwards.push(span);
        if from_later {
            j = j - 1;
        } else {
            i = i - 1;
        }
    }
    let mut out: Vec<Span> = Vec::new();
    let mut k: usize = backwards.len();
    while k > 0
        invariant
            k <= backwards@.len(),
            backwards@.len() == merged.len(),
            out@.len() == backwards@.len() - k,
            forall|t: int| 0 <= t < out@.len() ==> #[trigger] out@[t] == merged[t],
            forall|t: int|
                0 <= t < backwards@.len() ==> #[trigger] backwards@[t] == merged[merged.len() - 1
                    - t],
        decreases k,
    {
        k = k - 1;
        out.push(backwards[k]);
    }
    assert(out@ =~= merged);
    out
}

/// Orders the spans `lo..hi` of `spans`.
fn order_range(spans: &Vec<Span>, lo: usize, hi: usize) -> (ordered: Vec<Span>)
    requires
        lo <= hi <= spans@.len(),
    ensures
        ordered@ == stable_desc(spans@.subrange(lo as int, hi as int)),
    decreases hi - lo,
{
    let ghost range = spans@.subrange(lo as int, hi as int);
    if hi - lo == 0 {
        Vec::new()
    } else if hi - lo == 1 {
        let mut ordered: Vec<Span> = Vec::new();
        ordered.push(spans[lo]);
        proof {
            assert(range.drop_last() =~= Seq::<Span>::empty());
            assert(stable_desc(range.drop_last()) =~= Seq::<Span>::empty());
            assert(ordered@ =~= stable_desc(range));
        }
        ordered
    } else {
        let mid = lo + (hi - lo) / 2;
        let earlier = order_range(spans, lo, mid);
        let later = order_range(spans, mid, hi);
        proof {
            let (first, second) = (
                spans@.subrange(lo as int, mid as int),
                spans@.subrange(mid as int, hi as int),
            );
            assert(range =~= first + second);
            lemma_stable_desc(first);
            lemma_stable_desc(second);
            lemma_stable_desc_of_concat(first, second);
        }
        merge(&earlier, &later)
    }
}

/// Puts the spans in the order in which they are replaced: by descending
/// start, spans of one start as they came.
pub fn order_spans(spans: Vec<Span>) -> (ordered: Vec<Span>)
    ensures
        ordered@ == stable_desc(spans@),
{
    assert(spans@.subrange(0, spans@.len() as int) =~= spans@);
    order_range(&spans, 0, spans.len())
}

} // verus!
