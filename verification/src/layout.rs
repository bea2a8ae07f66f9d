//! What a blocklist means: which lists are canonical, which intervals a list describes, and how
//! the intervals are grouped into chunks.
use crate::address::AddressInterval;
use crate::address::AddressPrefix;
use crate::address::Span;
use crate::blocklist::Reason;
use vstd::arithmetic::power2::*;
use vstd::prelude::*;

verus! {

/// The addresses of a CIDR entry.
pub open spec fn net_span(net: AddressPrefix) -> Span {
    Span { v6: net.v6(), first: net.block().start, end: net.block().end() }
}

/// The list is canonical: normalized entries without host bits, IPv4 before IPv6, and within each
/// family in ascending order without overlaps.
pub open spec fn canonical(nets: Seq<AddressPrefix>) -> bool {
    &&& forall|i: int|
        0 <= i < nets.len() ==> (#[trigger] nets[i]).wf() && nets[i].block().aligned()
    &&& forall|i: int, j: int|
        0 <= i < j < nets.len() && (#[trigger] nets[i]).v6() ==> (#[trigger] nets[j]).v6()
    &&& forall|i: int, j: int|
        0 <= i < j < nets.len() && (#[trigger] nets[i]).v6() == (#[trigger] nets[j]).v6()
            ==> nets[i].block().end() <= nets[j].block().start
}

/// Why an entry cannot follow the entries accepted so far, if it cannot.
pub open spec fn rejection(nets: Seq<AddressPrefix>, net: AddressPrefix) -> Option<Reason> {
    if !net.block().aligned() {
        Some(Reason::HostBits)
    } else if nets.len() > 0 && nets.last().v6() && !net.v6() {
        Some(Reason::Ipv4AfterIpv6)
    } else if nets.len() > 0 && nets.last().v6() == net.v6() && net.block().start
        < nets.last().block().end() {
        Some(Reason::NotAscending)
    } else {
        None
    }
}

/// An entry is accepted after a canonical list exactly where the longer list is canonical too:
/// duplicates, overlaps, host bits, entries out of order and IPv4 after IPv6 are all rejected, and
/// nothing else is.
pub proof fn law_accepts_exactly_canonical(nets: Seq<AddressPrefix>, net: AddressPrefix)
    requires
        canonical(nets),
        net.wf(),
    ensures
        rejection(nets, net) is None <==> canonical(nets.push(net)),
{
    let longer = nets.push(net);
    let n = nets.len() as int;
    assert(longer[n] == net);
    if rejection(nets, net) is None {
        assert forall|i: int| 0 <= i < longer.len() implies (#[trigger] longer[i]).wf()
            && longer[i].block().aligned() by {
            if i < n {
                assert(longer[i] == nets[i]);
            }
        }
        assert forall|i: int, j: int|
            0 <= i < j < longer.len() && (#[trigger] longer[i]).v6() implies (
        #[trigger] longer[j]).v6() by {
            assert(longer[i] == nets[i]);
            if j < n {
                assert(longer[j] == nets[j]);
            } else if i < n - 1 {
                assert(nets[n - 1].v6());
            }
        }
        assert forall|i: int, j: int|
            0 <= i < j < longer.len() && (#[trigger] longer[i]).v6() == (
            #[trigger] longer[j]).v6() implies longer[i].block().end()
            <= longer[j].block().start by {
            assert(longer[i] == nets[i]);
            if j < n {
                assert(longer[j] == nets[j]);
            } else if i < n - 1 {
                assert(nets[i].v6() ==> nets[n - 1].v6());
                assert(nets[i].block().end() <= nets[n - 1].block().start);
                lemma_pow2_pos(nets[n - 1].block().bits);
            }
        }
    }
    if canonical(longer) {
        assert(longer[n].block().aligned());
        if n > 0 {
            assert(longer[n - 1] == nets[n - 1]);
            assert(longer[n - 1].v6() ==> longer[n].v6());
        }
    }
}

/// The span an entry extends, if the last one is of its family and ends where the entry starts.
pub open spec fn joined(spans: Seq<Span>, net: AddressPrefix) -> Seq<Span> {
    let span = net_span(net);
    if spans.len() > 0 && spans.last().v6 == span.v6 && spans.last().end == span.first {
        spans.drop_last().push(Span { v6: span.v6, first: spans.last().first, end: span.end })
    } else {
        spans.push(span)
    }
}

/// The intervals that a list describes: its entries, with adjacent ones coalesced.
pub open spec fn spans(nets: Seq<AddressPrefix>) -> Seq<Span>
    decreases nets.len(),
{
    if nets.len() == 0 {
        Seq::empty()
    } else {
        joined(spans(nets.drop_last()), nets.last())
    }
}

pub proof fn lemma_spans_push(nets: Seq<AddressPrefix>, net: AddressPrefix)
    ensures
        spans(nets.push(net)) == joined(spans(nets), net),
{
    assert(nets.push(net).drop_last() =~= nets);
}

/// The shape of the intervals of a list with at least one entry: the last interval ends with the
/// last entry.
pub proof fn lemma_last_span(nets: Seq<AddressPrefix>)
    requires
        nets.len() > 0,
    ensures
        0 < spans(nets).len() <= nets.len(),
        spans(nets).last().v6 == nets.last().v6(),
        spans(nets).last().end == nets.last().block().end(),
    decreases nets.len(),
{
    if nets.len() > 1 {
        lemma_last_span(nets.drop_last());
    } else {
        assert(spans(nets.drop_last()).len() == 0);
    }
}

/// Some interval holds the address.
pub open spec fn spans_contain(spans: Seq<Span>, v6: bool, address: int) -> bool {
    exists|i: int| 0 <= i < spans.len() && (#[trigger] spans[i]).contains(v6, address)
}

/// Some entry of the list holds the address.
pub open spec fn nets_contain(nets: Seq<AddressPrefix>, v6: bool, address: int) -> bool {
    exists|i: int| 0 <= i < nets.len() && net_span(#[trigger] nets[i]).contains(v6, address)
}

/// The intervals of a list hold exactly the addresses that its entries hold.
pub proof fn law_spans_cover_entries(nets: Seq<AddressPrefix>, v6: bool, address: int)
    ensures
        spans_contain(spans(nets), v6, address) <==> nets_contain(nets, v6, address),
    decreases nets.len(),
{
    if nets.len() > 0 {
        let before = nets.drop_last();
        let net = nets.last();
        let old = spans(before);
        let all = spans(nets);
        law_spans_cover_entries(before, v6, address);
        let joins = old.len() > 0 && old.last().v6 == net.v6() && old.last().end
            == net.block().start;
        if joins {
            lemma_spans_forward(before);
        }
        lemma_pow2_pos(net.block().bits);
        if spans_contain(all, v6, address) {
            let i = choose|i: int| 0 <= i < all.len() && (#[trigger] all[i]).contains(v6, address);
            if i < all.len() - 1 {
                assert(old[i].contains(v6, address));
            } else if net_span(net).contains(v6, address) {
                assert(net_span(nets[nets.len() - 1]).contains(v6, address));
            } else {
                assert(old[old.len() - 1].contains(v6, address));
            }
            if nets_contain(before, v6, address) {
                let k = choose|k: int|
                    0 <= k < before.len() && net_span(#[trigger] before[k]).contains(v6, address);
                assert(net_span(nets[k]).contains(v6, address));
            }
        }
        if nets_contain(nets, v6, address) {
            let k = choose|k: int|
                0 <= k < nets.len() && net_span(#[trigger] nets[k]).contains(v6, address);
            if k < nets.len() - 1 {
                assert(net_span(before[k]).contains(v6, address));
                let i = choose|i: int|
                    0 <= i < old.len() && (#[trigger] old[i]).contains(v6, address);
                assert(all[i].contains(v6, address));
            } else {
                assert(all[all.len() - 1].contains(v6, address));
            }
        }
    }
}

/// Every interval of a list holds an address.
pub proof fn lemma_spans_forward(nets: Seq<AddressPrefix>)
    ensures
        forall|i: int|
            0 <= i < spans(nets).len() ==> (#[trigger] spans(nets)[i]).first < spans(nets)[i].end,
    decreases nets.len(),
{
    if nets.len() > 0 {
        lemma_spans_forward(nets.drop_last());
        lemma_pow2_pos(nets.last().block().bits);
        let old = spans(nets.drop_last());
        let all = spans(nets);
        assert forall|i: int| 0 <= i < all.len() implies (#[trigger] all[i]).first < all[i].end by {
            if i < all.len() - 1 {
                assert(all[i] == old[i]);
            } else if all.len() == old.len() {
                assert(old[i].first < old[i].end);
            }
        }
    }
}

/// The intervals are in ascending order, IPv4 before IPv6, and between two of one family lies at
/// least one address: nothing is left to coalesce.
pub open spec fn separated(spans: Seq<Span>) -> bool {
    &&& forall|i: int, j: int|
        0 <= i < j < spans.len() && (#[trigger] spans[i]).v6 ==> (#[trigger] spans[j]).v6
    &&& forall|i: int, j: int|
        0 <= i < j < spans.len() && (#[trigger] spans[i]).v6 == (#[trigger] spans[j]).v6
            ==> spans[i].end < spans[j].first
}

/// Adjacent entries of a canonical list end up in one interval, so that no two intervals of it
/// overlap or touch.
pub proof fn law_spans_separated(nets: Seq<AddressPrefix>)
    requires
        canonical(nets),
    ensures
        separated(spans(nets)),
    decreases nets.len(),
{
    if nets.len() > 0 {
        let before = nets.drop_last();
        let net = nets.last();
        lemma_canonical_prefix(nets);
        law_spans_separated(before);
        let old = spans(before);
        let all = spans(nets);
        if before.len() > 0 {
            lemma_last_span(before);
            lemma_spans_forward(before);
            let n = nets.len() as int;
            assert(nets[n - 2] == before.last());
            assert(nets[n - 2].v6() ==> nets[n - 1].v6());
            assert(nets[n - 2].v6() == nets[n - 1].v6() ==> nets[n - 2].block().end()
                <= nets[n - 1].block().start);
        }
        assert forall|i: int, j: int|
            0 <= i < j < all.len() && (#[trigger] all[i]).v6 implies (#[trigger] all[j]).v6 by {
            assert(all[i] == old[i]);
            if j < all.len() - 1 {
                assert(all[j] == old[j]);
            } else if j < old.len() {
                assert(old[j].v6);
            } else if i < old.len() - 1 {
                assert(old[old.len() - 1].v6);
            }
        }
        assert forall|i: int, j: int|
            0 <= i < j < all.len() && (#[trigger] all[i]).v6 == (
            #[trigger] all[j]).v6 implies all[i].end < all[j].first by {
            assert(all[i] == old[i]);
            if j < all.len() - 1 {
                assert(all[j] == old[j]);
            } else if j < old.len() {
                assert(old[i].v6 == old[j].v6);
            } else if i < old.len() - 1 {
                assert(old[i].v6 ==> old[old.len() - 1].v6);
                assert(old[i].end < old[old.len() - 1].first);
            }
        }
    }
}

/// A canonical list without its last entry is canonical.
pub proof fn lemma_canonical_prefix(nets: Seq<AddressPrefix>)
    requires
        canonical(nets),
        nets.len() > 0,
    ensures
        canonical(nets.drop_last()),
{
    let before = nets.drop_last();
    assert forall|i: int| 0 <= i < before.len() implies (#[trigger] before[i]).wf()
        && before[i].block().aligned() by {
        assert(before[i] == nets[i]);
    }
    assert forall|i: int, j: int|
        0 <= i < j < before.len() && (#[trigger] before[i]).v6() implies (
    #[trigger] before[j]).v6() by {
        assert(before[i] == nets[i] && before[j] == nets[j]);
    }
    assert forall|i: int, j: int|
        0 <= i < j < before.len() && (#[trigger] before[i]).v6() == (
        #[trigger] before[j]).v6() implies before[i].block().end()
        <= before[j].block().start by {
        assert(before[i] == nets[i] && before[j] == nets[j]);
    }
}

/// The number of set elements that mark the intervals.
pub open spec fn total(spans: Seq<Span>) -> nat
    decreases spans.len(),
{
    if spans.len() == 0 {
        0
    } else {
        total(spans.drop_last()) + spans.last().boundaries()
    }
}

/// How many of the intervals are of a family.
pub open spec fn count(spans: Seq<Span>, v6: bool) -> nat
    decreases spans.len(),
{
    if spans.len() == 0 {
        0
    } else if spans.last().v6 == v6 {
        count(spans.drop_last(), v6) + 1
    } else {
        count(spans.drop_last(), v6)
    }
}

/// How many set elements mark the intervals of a family.
pub open spec fn elements(spans: Seq<Span>, v6: bool) -> nat
    decreases spans.len(),
{
    if spans.len() == 0 {
        0
    } else if spans.last().v6 == v6 {
        elements(spans.drop_last(), v6) + spans.last().boundaries()
    } else {
        elements(spans.drop_last(), v6)
    }
}

/// The intervals of one family, in their order.
pub open spec fn family(spans: Seq<Span>, v6: bool) -> Seq<Span>
    decreases spans.len(),
{
    if spans.len() == 0 {
        Seq::empty()
    } else if spans.last().v6 == v6 {
        family(spans.drop_last(), v6).push(spans.last())
    } else {
        family(spans.drop_last(), v6)
    }
}

pub proof fn lemma_family_push(spans: Seq<Span>, span: Span, v6: bool)
    ensures
        family(spans.push(span), v6) == if span.v6 == v6 {
            family(spans, v6).push(span)
        } else {
            family(spans, v6)
        },
{
    assert(spans.push(span).drop_last() =~= spans);
}

/// The intervals of a family hold exactly the addresses of that family.
pub proof fn law_family_covers(spans: Seq<Span>, v6: bool, address: int)
    ensures
        spans_contain(family(spans, v6), v6, address) <==> spans_contain(spans, v6, address),
    decreases spans.len(),
{
    if spans.len() > 0 {
        let before = spans.drop_last();
        law_family_covers(before, v6, address);
        let part = family(spans, v6);
        if spans_contain(part, v6, address) {
            let i = choose|i: int| 0 <= i < part.len() && (#[trigger] part[i]).contains(v6, address);
            if i < family(before, v6).len() {
                assert(family(before, v6)[i].contains(v6, address));
                let k = choose|k: int|
                    0 <= k < before.len() && (#[trigger] before[k]).contains(v6, address);
                assert(spans[k].contains(v6, address));
            } else {
                assert(spans[spans.len() - 1].contains(v6, address));
            }
        }
        if spans_contain(spans, v6, address) {
            let k = choose|k: int|
                0 <= k < spans.len() && (#[trigger] spans[k]).contains(v6, address);
            if k < before.len() {
                assert(before[k].contains(v6, address));
                let i = choose|i: int|
                    0 <= i < family(before, v6).len() && (#[trigger] family(
                        before,
                        v6,
                    )[i]).contains(v6, address);
                assert(part[i].contains(v6, address));
            } else {
                assert(part[part.len() - 1].contains(v6, address));
            }
        }
    }
}

pub proof fn lemma_counts_push(spans: Seq<Span>, span: Span, v6: bool)
    ensures
        count(spans.push(span), v6) == count(spans, v6) + if span.v6 == v6 {
            1nat
        } else {
            0nat
        },
        elements(spans.push(span), v6) == elements(spans, v6) + if span.v6 == v6 {
            span.boundaries()
        } else {
            0nat
        },
{
    assert(spans.push(span).drop_last() =~= spans);
}

pub proof fn lemma_counts_bounded(spans: Seq<Span>, v6: bool)
    ensures
        count(spans, v6) <= spans.len(),
        elements(spans, v6) <= 2 * spans.len(),
    decreases spans.len(),
{
    if spans.len() > 0 {
        lemma_counts_bounded(spans.drop_last(), v6);
    }
}

/// Every interval is of one of the two families.
pub proof fn lemma_counts_sum(spans: Seq<Span>)
    ensures
        count(spans, false) + count(spans, true) == spans.len(),
        elements(spans, false) + elements(spans, true) == total(spans),
    decreases spans.len(),
{
    if spans.len() > 0 {
        lemma_counts_sum(spans.drop_last());
    }
}

/// The chunks that are complete, and the one that still grows.
pub struct Chunks {
    pub done: Seq<Seq<Span>>,
    pub open: Seq<Span>,
}

impl Chunks {
    pub open spec fn empty() -> Chunks {
        Chunks { done: Seq::empty(), open: Seq::empty() }
    }

    /// Completes the growing chunk, unless it is empty.
    pub open spec fn closed(self) -> Chunks {
        if self.open.len() == 0 {
            self
        } else {
            Chunks { done: self.done.push(self.open), open: Seq::empty() }
        }
    }

    /// Whether an interval may not join the growing chunk: the families differ, or the chunk would
    /// exceed the limit.
    pub open spec fn refuses(self, span: Span, limit: nat) -> bool {
        self.open.len() > 0 && (self.open.last().v6 != span.v6 || total(self.open)
            + span.boundaries() > limit)
    }

    /// Puts an interval into the growing chunk, or into a new one; a chunk that has reached the
    /// limit is complete.
    pub open spec fn placed(self, span: Span, limit: nat) -> Chunks {
        let ready = if self.refuses(span, limit) {
            self.closed()
        } else {
            self
        };
        let grown = Chunks { done: ready.done, open: ready.open.push(span) };
        if total(grown.open) >= limit {
            grown.closed()
        } else {
            grown
        }
    }

    /// Completes the growing chunk where the next interval is of the other family.
    pub open spec fn before_family(self, v6: bool) -> Chunks {
        if self.open.len() > 0 && self.open.last().v6 != v6 {
            self.closed()
        } else {
            self
        }
    }
}

impl Chunks {
    /// The same chunks after others that are complete.
    pub open spec fn after(self, earlier: Seq<Seq<Span>>) -> Chunks {
        Chunks { done: earlier + self.done, open: self.open }
    }
}

/// Where an interval is placed does not depend on the chunks that are complete.
pub proof fn lemma_placed_after(chunks: Chunks, earlier: Seq<Seq<Span>>, span: Span, limit: nat)
    ensures
        chunks.after(earlier).placed(span, limit) == chunks.placed(span, limit).after(earlier),
{
    let whole = chunks.after(earlier);
    assert(whole.closed().done =~= chunks.closed().after(earlier).done);
    let ready = if chunks.refuses(span, limit) {
        chunks.closed()
    } else {
        chunks
    };
    let grown = Chunks { done: ready.done, open: ready.open.push(span) };
    assert(grown.after(earlier).closed().done =~= grown.closed().after(earlier).done);
}

/// The chunks after the intervals have been placed one by one.
pub open spec fn place_all(spans: Seq<Span>, limit: nat) -> Chunks
    decreases spans.len(),
{
    if spans.len() == 0 {
        Chunks::empty()
    } else {
        place_all(spans.drop_last(), limit).placed(spans.last(), limit)
    }
}

/// The chunks of the intervals.
pub open spec fn chunked(spans: Seq<Span>, limit: nat) -> Seq<Seq<Span>> {
    place_all(spans, limit).closed().done
}

/// The chunks while the last interval may still grow and has no place yet.
pub open spec fn settled(spans: Seq<Span>, limit: nat) -> Chunks {
    if spans.len() == 0 {
        Chunks::empty()
    } else {
        place_all(spans.drop_last(), limit).before_family(spans.last().v6)
    }
}

/// Placing the last interval after all others is placing them all.
pub proof fn lemma_settle_last(spans: Seq<Span>, limit: nat)
    requires
        spans.len() > 0,
    ensures
        settled(spans, limit).placed(spans.last(), limit) == place_all(spans, limit),
{
}

pub open spec fn flat(chunks: Seq<Seq<Span>>) -> Seq<Span>
    decreases chunks.len(),
{
    if chunks.len() == 0 {
        Seq::empty()
    } else {
        flat(chunks.drop_last()) + chunks.last()
    }
}

pub proof fn lemma_flat_push(chunks: Seq<Seq<Span>>, chunk: Seq<Span>)
    ensures
        flat(chunks.push(chunk)) == flat(chunks) + chunk,
{
    assert(chunks.push(chunk).drop_last() =~= chunks);
}

pub proof fn lemma_total_push(spans: Seq<Span>, span: Span)
    ensures
        total(spans.push(span)) == total(spans) + span.boundaries(),
{
    assert(spans.push(span).drop_last() =~= spans);
}

proof fn lemma_closed_flat(chunks: Chunks)
    ensures
        flat(chunks.closed().done) + chunks.closed().open == flat(chunks.done) + chunks.open,
{
    if chunks.open.len() > 0 {
        lemma_flat_push(chunks.done, chunks.open);
        assert(flat(chunks.closed().done) + chunks.closed().open =~= flat(chunks.done)
            + chunks.open);
    }
}

proof fn lemma_place_all_flat(spans: Seq<Span>, limit: nat)
    ensures
        flat(place_all(spans, limit).done) + place_all(spans, limit).open == spans,
    decreases spans.len(),
{
    if spans.len() == 0 {
        assert(flat(place_all(spans, limit).done) + place_all(spans, limit).open =~= spans);
    } else {
        let before = place_all(spans.drop_last(), limit);
        let span = spans.last();
        lemma_place_all_flat(spans.drop_last(), limit);
        let ready = if before.refuses(span, limit) {
            before.closed()
        } else {
            before
        };
        lemma_closed_flat(before);
        let grown = Chunks { done: ready.done, open: ready.open.push(span) };
        lemma_closed_flat(grown);
        assert(flat(grown.done) + grown.open =~= (flat(ready.done) + ready.open).push(span));
        assert(spans =~= spans.drop_last().push(span));
    }
}

/// The chunks, one after the other, are the intervals in their order: none is lost, doubled or
/// split.
pub proof fn law_chunks_keep_intervals(spans: Seq<Span>, limit: nat)
    ensures
        flat(chunked(spans, limit)) == spans,
{
    let all = place_all(spans, limit);
    lemma_place_all_flat(spans, limit);
    lemma_closed_flat(all);
    assert(flat(all.closed().done) + all.closed().open =~= flat(all.closed().done));
}

/// The chunks of a list hold exactly the addresses that its entries hold.
pub proof fn law_chunks_cover_entries(
    nets: Seq<AddressPrefix>,
    limit: nat,
    v6: bool,
    address: int,
)
    ensures
        spans_contain(flat(chunked(spans(nets), limit)), v6, address) <==> nets_contain(
            nets,
            v6,
            address,
        ),
{
    law_chunks_keep_intervals(spans(nets), limit);
    law_spans_cover_entries(nets, v6, address);
}

/// A chunk holds intervals of one family; where it holds more than one, their set elements are
/// within the limit.
pub open spec fn chunk_ok(chunk: Seq<Span>, limit: nat) -> bool {
    &&& chunk.len() > 0
    &&& chunk.len() > 1 ==> total(chunk) <= limit
    &&& forall|i: int| 0 <= i < chunk.len() ==> (#[trigger] chunk[i]).v6 == chunk[0].v6
}

proof fn lemma_place_all_ok(spans: Seq<Span>, limit: nat)
    requires
        limit > 0,
    ensures
        forall|k: int|
            0 <= k < place_all(spans, limit).done.len() ==> chunk_ok(
                #[trigger] place_all(spans, limit).done[k],
                limit,
            ),
        place_all(spans, limit).open.len() > 0 ==> chunk_ok(place_all(spans, limit).open, limit)
            && total(place_all(spans, limit).open) < limit,
    decreases spans.len(),
{
    if spans.len() > 0 {
        let before = place_all(spans.drop_last(), limit);
        let span = spans.last();
        lemma_place_all_ok(spans.drop_last(), limit);
        let ready = if before.refuses(span, limit) {
            before.closed()
        } else {
            before
        };
        lemma_total_push(ready.open, span);
        let grown = ready.open.push(span);
        assert(chunk_ok(grown, limit)) by {
            assert forall|i: int| 0 <= i < grown.len() implies (#[trigger] grown[i]).v6
                == grown[0].v6 by {
                if ready.open.len() > 0 {
                    assert(grown[0] == ready.open[0]);
                    assert(ready.open[ready.open.len() - 1].v6 == ready.open[0].v6);
                    if i < ready.open.len() {
                        assert(grown[i] == ready.open[i]);
                    }
                }
            }
        }
        let after = place_all(spans, limit);
        assert forall|k: int| 0 <= k < after.done.len() implies chunk_ok(
            #[trigger] after.done[k],
            limit,
        ) by {
            if k < before.done.len() {
                assert(after.done[k] == before.done[k]);
            }
        }
    }
}

/// No chunk mixes the families or is empty, and the set elements of a chunk stay within the limit,
/// except for a chunk of a single interval, which needs two elements at most.
pub proof fn law_chunks_bounded(spans: Seq<Span>, limit: nat, k: int)
    requires
        limit > 0,
        0 <= k < chunked(spans, limit).len(),
    ensures
        chunk_ok(chunked(spans, limit)[k], limit),
        total(chunked(spans, limit)[k]) <= limit || total(chunked(spans, limit)[k]) <= 2,
{
    lemma_place_all_ok(spans, limit);
    let all = place_all(spans, limit);
    let chunk = chunked(spans, limit)[k];
    if k < all.done.len() {
        assert(chunk == all.done[k]);
    }
    if chunk.len() == 1 {
        assert(chunk.drop_last() =~= Seq::empty());
        assert(total(chunk) == chunk.last().boundaries()) by {
            reveal_with_fuel(total, 2);
        }
    }
}

/// The intervals as mathematical spans.
pub open spec fn interval_spans(intervals: Seq<AddressInterval>) -> Seq<Span> {
    intervals.map_values(|i: AddressInterval| i.span())
}

/// The chunks as mathematical spans.
pub open spec fn chunk_spans(chunks: Seq<Vec<AddressInterval>>) -> Seq<Seq<Span>> {
    chunks.map_values(|c: Vec<AddressInterval>| interval_spans(c@))
}

/// The next interval could not have joined the chunk: it is of the other family, or its set
/// elements would have exceeded the limit.
pub open spec fn must_end(chunk: Seq<Span>, next: Span, limit: nat) -> bool {
    chunk[0].v6 != next.v6 || total(chunk) + next.boundaries() > limit
}

/// Every complete chunk had to end where it did, and the growing chunk is of one family.
spec fn full(chunks: Chunks, limit: nat) -> bool {
    &&& forall|k: int|
        0 <= k < chunks.done.len() ==> (#[trigger] chunks.done[k]).len() > 0 && (k + 1
            < chunks.done.len() ==> must_end(chunks.done[k], chunks.done[k + 1][0], limit))
    &&& chunks.open.len() > 0 && chunks.done.len() > 0 ==> must_end(
        chunks.done.last(),
        chunks.open[0],
        limit,
    )
    &&& chunks.open.len() == 0 && chunks.done.len() > 0 ==> total(chunks.done.last()) >= limit
    &&& forall|i: int|
        0 <= i < chunks.open.len() ==> (#[trigger] chunks.open[i]).v6 == chunks.open[0].v6
}

proof fn lemma_closed_full(chunks: Chunks, limit: nat)
    requires
        full(chunks, limit),
    ensures
        ({
            let done = chunks.closed().done;
            forall|k: int|
                0 <= k < done.len() ==> (#[trigger] done[k]).len() > 0 && (k + 1 < done.len()
                    ==> must_end(done[k], done[k + 1][0], limit))
        }),
{
    let done = chunks.closed().done;
    assert forall|k: int| 0 <= k < done.len() implies (#[trigger] done[k]).len() > 0 && (k + 1
        < done.len() ==> must_end(done[k], done[k + 1][0], limit)) by {
        if k < chunks.done.len() {
            assert(done[k] == chunks.done[k]);
            if k + 1 < chunks.done.len() {
                assert(done[k + 1] == chunks.done[k + 1]);
            }
        }
    }
}

proof fn lemma_placed_full(chunks: Chunks, span: Span, limit: nat)
    requires
        full(chunks, limit),
        limit > 0,
    ensures
        full(chunks.placed(span, limit), limit),
{
    lemma_closed_full(chunks, limit);
    let ready = if chunks.refuses(span, limit) {
        chunks.closed()
    } else {
        chunks
    };
    let grown = Chunks { done: ready.done, open: ready.open.push(span) };
    assert(grown.done.len() > 0 ==> must_end(grown.done.last(), grown.open[0], limit)) by {
        if chunks.refuses(span, limit) {
            assert(chunks.open[chunks.open.len() - 1].v6 == chunks.open[0].v6);
        } else if chunks.open.len() > 0 {
            assert(grown.open[0] == chunks.open[0]);
        }
    }
    assert forall|i: int| 0 <= i < grown.open.len() implies (#[trigger] grown.open[i]).v6
        == grown.open[0].v6 by {
        if ready.open.len() > 0 {
            assert(ready.open == chunks.open);
            assert(chunks.open[chunks.open.len() - 1].v6 == chunks.open[0].v6);
            if i < ready.open.len() {
                assert(grown.open[i] == chunks.open[i]);
            }
        }
    }
    if total(grown.open) >= limit {
        let done = grown.closed().done;
        assert forall|k: int| 0 <= k < done.len() implies (#[trigger] done[k]).len() > 0 && (k + 1
            < done.len() ==> must_end(done[k], done[k + 1][0], limit)) by {
            if k < grown.done.len() {
                assert(done[k] == grown.done[k]);
                if k + 1 < grown.done.len() {
                    assert(done[k + 1] == grown.done[k + 1]);
                }
            }
        }
    }
}

proof fn lemma_place_all_full(spans: Seq<Span>, limit: nat)
    requires
        limit > 0,
    ensures
        full(place_all(spans, limit), limit),
    decreases spans.len(),
{
    if spans.len() > 0 {
        lemma_place_all_full(spans.drop_last(), limit);
        lemma_placed_full(place_all(spans.drop_last(), limit), spans.last(), limit);
    }
}

/// No chunk ends early: what begins the next chunk is of the other family, or would have taken the
/// chunk over the limit.
pub proof fn law_chunks_are_full(spans: Seq<Span>, limit: nat, k: int)
    requires
        limit > 0,
        0 <= k,
        k + 1 < chunked(spans, limit).len(),
    ensures
        chunked(spans, limit)[k].len() > 0,
        chunked(spans, limit)[k + 1].len() > 0,
        chunked(spans, limit)[k][0].v6 != chunked(spans, limit)[k + 1][0].v6 || total(
            chunked(spans, limit)[k],
        ) + chunked(spans, limit)[k + 1][0].boundaries() > limit,
{
    lemma_place_all_full(spans, limit);
    lemma_closed_full(place_all(spans, limit), limit);
    assert(chunked(spans, limit)[k].len() > 0);
    assert(chunked(spans, limit)[k + 1].len() > 0);
}

/// The number of set elements of a list is two for every interval, and one less where an interval
/// reaches the end of the address space.
pub proof fn law_intervals_need_two_elements(spans: Seq<Span>, v6: bool, span: Span)
    ensures
        count(spans, v6) == family(spans, v6).len(),
        elements(spans, v6) == total(family(spans, v6)),
        total(Seq::<Span>::empty()) == 0,
        total(spans.push(span)) == total(spans) + if span.end == crate::address::space(span.v6) {
            1nat
        } else {
            2nat
        },
    decreases spans.len(),
{
    assert(spans.push(span).drop_last() =~= spans);
    if spans.len() > 0 {
        let before = spans.drop_last();
        law_intervals_need_two_elements(before, v6, span);
        if spans.last().v6 == v6 {
            lemma_total_push(family(before, v6), spans.last());
        }
    }
}

/// The entries of a canonical list share no address, come in the order of their addresses, and each
/// starts at a multiple of its size; all of IPv4 comes before all of IPv6.
pub proof fn law_canonical_entries_are_apart(
    nets: Seq<AddressPrefix>,
    i: int,
    j: int,
    v6: bool,
    low: int,
    high: int,
)
    requires
        canonical(nets),
        0 <= i < j < nets.len(),
    ensures
        net_span(nets[i]).contains(v6, low) && net_span(nets[j]).contains(v6, high) ==> low < high,
        nets[i] is V6 ==> nets[j] is V6,
        nets[i] matches AddressPrefix::V4 { address, prefix_len } ==> prefix_len <= 32 && address
            as int % (pow2((32 - prefix_len) as nat) as int) == 0,
        nets[i] matches AddressPrefix::V6 { address, prefix_len } ==> prefix_len <= 128 && address
            as int % (pow2((128 - prefix_len) as nat) as int) == 0,
{
    assert(nets[i].wf() && nets[j].wf());
    assert(nets[i].block().aligned());
}

/// Each reason for which an entry is rejected after a canonical list is the true one: host bits
/// first, then IPv4 after IPv6, then an entry before it that does not lie wholly below.
pub proof fn law_rejections_are_reasoned(nets: Seq<AddressPrefix>, net: AddressPrefix)
    requires
        canonical(nets),
        net.wf(),
    ensures
        ({
            let host_bits = match net {
                AddressPrefix::V4 { address, prefix_len } => address as int % (pow2(
                    (32 - prefix_len) as nat,
                ) as int) != 0,
                AddressPrefix::V6 { address, prefix_len } => address as int % (pow2(
                    (128 - prefix_len) as nat,
                ) as int) != 0,
            };
            let late = net is V4 && exists|i: int| 0 <= i < nets.len() && #[trigger] nets[i] is V6;
            let behind = exists|i: int|
                0 <= i < nets.len() && (#[trigger] nets[i] is V6) == (net is V6) && net_span(
                    net,
                ).first < net_span(nets[i]).end;
            rejection(nets, net) == (if host_bits {
                Some(Reason::HostBits)
            } else if late {
                Some(Reason::Ipv4AfterIpv6)
            } else if behind {
                Some(Reason::NotAscending)
            } else {
                None
            })
        }),
{
    let n = nets.len() as int;
    let late = net is V4 && exists|i: int| 0 <= i < nets.len() && #[trigger] nets[i] is V6;
    if late {
        let i = choose|i: int| 0 <= i < nets.len() && #[trigger] nets[i] is V6;
        if i < n - 1 {
            assert(nets[i].v6() ==> nets[n - 1].v6());
        }
    }
    if n > 0 && nets.last().v6() {
        assert(nets[n - 1] is V6);
    }
    if n > 0 && nets.last().v6() == net.v6() && net.block().start < nets.last().block().end() {
        assert((nets[n - 1] is V6) == (net is V6));
    }
    assert forall|i: int|
        0 <= i < nets.len() && (#[trigger] nets[i] is V6) == (net is V6) && net_span(net).first
            < net_span(nets[i]).end && !late implies nets.last().v6() == net.v6()
        && net.block().start < nets.last().block().end() by {
        if i < n - 1 {
            assert(nets[i].v6() ==> nets[n - 1].v6());
            if nets[n - 1].v6() != net.v6() {
                assert(nets[n - 1] is V6);
            }
            assert(nets[i].block().end() <= nets[n - 1].block().start);
            lemma_pow2_pos(nets[n - 1].block().bits);
        }
    }
}

/// What is handed out while a list is read is its first intervals, in their order.
pub proof fn law_settled_chunks_come_first(spans: Seq<Span>, limit: nat)
    ensures
        flat(settled(spans, limit).done).len() <= spans.len(),
        flat(settled(spans, limit).done) == spans.take(
            flat(settled(spans, limit).done).len() as int,
        ),
{
    let part = flat(settled(spans, limit).done);
    if spans.len() == 0 {
        assert(part =~= spans.take(0));
    } else {
        let before = place_all(spans.drop_last(), limit);
        lemma_place_all_flat(spans.drop_last(), limit);
        lemma_closed_flat(before);
        let now = settled(spans, limit);
        assert(flat(now.done) + now.open == spans.drop_last());
        assert(part =~= spans.drop_last().take(part.len() as int));
        assert(part =~= spans.take(part.len() as int));
    }
}

/// While a list is read, little is withheld: the interval that may still grow, and intervals whose
/// set elements together are fewer than the limit. All before these have been handed out.
pub proof fn law_little_is_withheld(spans: Seq<Span>, limit: nat)
    requires
        limit > 0,
        spans.len() > 0,
    ensures
        flat(settled(spans, limit).done) + settled(spans, limit).open == spans.drop_last(),
        settled(spans, limit).open.len() > 0 ==> total(settled(spans, limit).open) < limit,
{
    let before = place_all(spans.drop_last(), limit);
    lemma_place_all_flat(spans.drop_last(), limit);
    lemma_place_all_ok(spans.drop_last(), limit);
    lemma_closed_flat(before);
}

} // verus!
