//! XDP: staging lists into table slots, and keeping programs attached.
use crate::address::AddressInterval;
use crate::address::AddressPrefix;
use crate::address::Span;
use crate::address::interval_prefixes;
use crate::blocklist::ChunkStream;
use crate::blocklist::Fault;
use crate::blocklist::ParseError;
use crate::blocklist::Verdict;
use crate::control::Control;
use crate::control::LAYOUT_VERSION;
use crate::text::decimal;
use vstd::prelude::*;
use vstd::string::*;

verus! {

/// Why a list could not be staged.
#[derive(Debug)]
pub enum StageError {
    Parse(ParseError),
    /// The list has more prefixes of a family than its tables can hold.
    Capacity { v6: bool, max_entries: u32 },
}

/// Why a list could not be staged, over mathematical values.
pub enum StageFault {
    Parse(Fault),
    Capacity { v6: bool, max_entries: u32 },
}

impl StageFault {
    /// The message that tells a user what went wrong.
    pub open spec fn message(self) -> Seq<char> {
        match self {
            StageFault::Parse(fault) => fault.message(),
            StageFault::Capacity { v6, max_entries } => (if v6 {
                "XDP IPv6 map capacity exceeded ("@
            } else {
                "XDP IPv4 map capacity exceeded ("@
            }) + crate::text::decimal_digits(max_entries as nat) + ")"@,
        }
    }
}

impl StageError {
    pub open spec fn fault(self) -> StageFault {
        match self {
            StageError::Parse(error) => StageFault::Parse(error.fault()),
            StageError::Capacity { v6, max_entries } => StageFault::Capacity { v6, max_entries },
        }
    }

    /// The message that tells a user what went wrong.
    pub fn message(&self) -> (r: String)
        ensures
            r@ == self.fault().message(),
    {
        match self {
            StageError::Parse(error) => error.message(),
            StageError::Capacity { v6, max_entries } => String::from_str(
                if *v6 {
                    "XDP IPv6 map capacity exceeded ("
                } else {
                    "XDP IPv4 map capacity exceeded ("
                },
            ).concat(decimal(*max_entries as u64).as_str()).concat(")"),
        }
    }
}

/// The number of prefixes of one family.
pub open spec fn family_count(prefixes: Seq<AddressPrefix>, v6: bool) -> nat
    decreases prefixes.len(),
{
    if prefixes.len() == 0 {
        0
    } else {
        family_count(prefixes.drop_last(), v6) + if prefixes.last().v6() == v6 {
            1nat
        } else {
            0nat
        }
    }
}

/// The prefixes are the decomposition of the interval.
pub open spec fn decomposed(prefixes: Seq<AddressPrefix>, span: Span) -> bool {
    &&& crate::address::of_family(prefixes, span.v6)
    &&& crate::dyadic::decomposes(crate::address::blocks(prefixes), span.first, span.end)
}

/// The prefixes are the decompositions of the intervals, one after the other.
pub open spec fn stages(prefixes: Seq<AddressPrefix>, spans: Seq<Span>) -> bool
    decreases spans.len(),
{
    if spans.len() == 0 {
        prefixes.len() == 0
    } else {
        exists|n: int|
            0 <= n <= prefixes.len() && stages(#[trigger] prefixes.take(n), spans.drop_last())
                && decomposed(prefixes.skip(n), spans.last())
    }
}

proof fn lemma_count_append(a: Seq<AddressPrefix>, b: Seq<AddressPrefix>, v6: bool)
    ensures
        family_count(a + b, v6) == family_count(a, v6) + family_count(b, v6),
    decreases b.len(),
{
    if b.len() == 0 {
        assert(a + b =~= a);
    } else {
        assert((a + b).drop_last() =~= a + b.drop_last());
        assert((a + b).last() == b.last());
        lemma_count_append(a, b.drop_last(), v6);
    }
}

proof fn lemma_count_family(prefixes: Seq<AddressPrefix>, family: bool, v6: bool)
    requires
        crate::address::of_family(prefixes, family),
    ensures
        family_count(prefixes, v6) == if v6 == family {
            prefixes.len()
        } else {
            0
        },
    decreases prefixes.len(),
{
    if prefixes.len() > 0 {
        let before = prefixes.drop_last();
        assert(crate::address::of_family(before, family)) by {
            assert forall|i: int| 0 <= i < before.len() implies (#[trigger] before[i]).wf()
                && before[i].v6() == family by {
                assert(before[i] == prefixes[i]);
            }
        }
        lemma_count_family(before, family, v6);
        assert(prefixes[prefixes.len() - 1].v6() == family);
    }
}

proof fn lemma_stages_push(
    prefixes: Seq<AddressPrefix>,
    spans: Seq<Span>,
    more: Seq<AddressPrefix>,
    span: Span,
)
    requires
        stages(prefixes, spans),
        decomposed(more, span),
    ensures
        stages(prefixes + more, spans.push(span)),
{
    let all = prefixes + more;
    let n = prefixes.len() as int;
    assert(spans.push(span).drop_last() =~= spans);
    assert(all.take(n) =~= prefixes);
    assert(all.skip(n) =~= more);
    assert(stages(all.take(n), spans.push(span).drop_last()));
}

/// The staged prefixes hold exactly the addresses of the intervals.
pub proof fn law_staged_prefixes_cover(
    prefixes: Seq<AddressPrefix>,
    spans: Seq<Span>,
    v6: bool,
    address: int,
)
    requires
        stages(prefixes, spans),
    ensures
        crate::address::prefixes_contain(prefixes, v6, address) <==> crate::layout::spans_contain(
            spans,
            v6,
            address,
        ),
    decreases spans.len(),
{
    if spans.len() > 0 {
        let before = spans.drop_last();
        let last = spans.last();
        let n = choose|n: int|
            0 <= n <= prefixes.len() && stages(#[trigger] prefixes.take(n), before) && decomposed(
                prefixes.skip(n),
                last,
            );
        let (head, tail) = (prefixes.take(n), prefixes.skip(n));
        law_staged_prefixes_cover(head, before, v6, address);
        crate::address::lemma_prefixes_cover(tail, last, v6, address);
        lemma_contain_split(prefixes, n, v6, address);
        lemma_spans_split(spans, v6, address);
    }
}

proof fn lemma_contain_split(prefixes: Seq<AddressPrefix>, n: int, v6: bool, address: int)
    requires
        0 <= n <= prefixes.len(),
    ensures
        crate::address::prefixes_contain(prefixes, v6, address) <==> (
        crate::address::prefixes_contain(prefixes.take(n), v6, address)
            || crate::address::prefixes_contain(prefixes.skip(n), v6, address)),
{
    let (head, tail) = (prefixes.take(n), prefixes.skip(n));
    if crate::address::prefixes_contain(prefixes, v6, address) {
        let i = choose|i: int|
            0 <= i < prefixes.len() && (#[trigger] prefixes[i]).v6() == v6
                && prefixes[i].block().contains(address);
        if i < n {
            assert(head[i] == prefixes[i]);
        } else {
            assert(tail[i - n] == prefixes[i]);
        }
    }
    if crate::address::prefixes_contain(head, v6, address) {
        let i = choose|i: int|
            0 <= i < head.len() && (#[trigger] head[i]).v6() == v6 && head[i].block().contains(
                address,
            );
        assert(prefixes[i] == head[i]);
    }
    if crate::address::prefixes_contain(tail, v6, address) {
        let i = choose|i: int|
            0 <= i < tail.len() && (#[trigger] tail[i]).v6() == v6 && tail[i].block().contains(
                address,
            );
        assert(prefixes[n + i] == tail[i]);
    }
}

proof fn lemma_spans_split(spans: Seq<Span>, v6: bool, address: int)
    requires
        spans.len() > 0,
    ensures
        crate::layout::spans_contain(spans, v6, address) <==> (crate::layout::spans_contain(
            spans.drop_last(),
            v6,
            address,
        ) || spans.last().contains(v6, address)),
{
    let before = spans.drop_last();
    if crate::layout::spans_contain(spans, v6, address) {
        let k = choose|k: int| 0 <= k < spans.len() && (#[trigger] spans[k]).contains(v6, address);
        if k < before.len() {
            assert(before[k] == spans[k]);
        }
    }
    if crate::layout::spans_contain(before, v6, address) {
        let k = choose|k: int|
            0 <= k < before.len() && (#[trigger] before[k]).contains(v6, address);
        assert(spans[k] == before[k]);
    }
    if spans.last().contains(v6, address) {
        assert(spans[spans.len() - 1].contains(v6, address));
    }
}

/// The tables of a slot while they are filled: how many prefixes they have, and how many they can
/// hold.
pub struct Staging {
    ipv4: u64,
    ipv6: u64,
    ipv4_max: u32,
    ipv6_max: u32,
    prefixes: Ghost<Seq<AddressPrefix>>,
}

impl Staging {
    /// The prefixes staged so far.
    pub closed spec fn prefixes(self) -> Seq<AddressPrefix> {
        self.prefixes@
    }

    /// How many prefixes of a family fit.
    pub closed spec fn max(self, v6: bool) -> u32 {
        if v6 {
            self.ipv6_max
        } else {
            self.ipv4_max
        }
    }

    pub closed spec fn wf(self) -> bool {
        &&& self.ipv4 == family_count(self.prefixes@, false)
        &&& self.ipv6 == family_count(self.prefixes@, true)
        &&& self.ipv4 <= self.ipv4_max
        &&& self.ipv6 <= self.ipv6_max
    }

    /// No family has more prefixes than fit.
    pub proof fn law_staging_fits(self, v6: bool)
        requires
            self.wf(),
        ensures
            family_count(self.prefixes(), v6) <= self.max(v6),
    {
    }

    pub fn new(ipv4_max: u32, ipv6_max: u32) -> (staging: Self)
        ensures
            staging.wf(),
            staging.prefixes().len() == 0,
            staging.max(false) == ipv4_max,
            staging.max(true) == ipv6_max,
    {
        Staging { ipv4: 0, ipv6: 0, ipv4_max, ipv6_max, prefixes: Ghost(Seq::empty()) }
    }

    /// How many prefixes of a family are staged.
    pub fn count(&self, v6: bool) -> (r: u64)
        requires
            self.wf(),
        ensures
            r == family_count(self.prefixes(), v6),
    {
        if v6 {
            self.ipv6
        } else {
            self.ipv4
        }
    }

    /// The prefixes of an interval, to be put into the tables; an error where they do not fit, and
    /// then nothing is staged.
    pub fn stage(&mut self, interval: AddressInterval) -> (r: Result<Vec<AddressPrefix>, StageError>)
        requires
            old(self).wf(),
            interval.wf(),
        ensures
            final(self).wf(),
            final(self).max(false) == old(self).max(false),
            final(self).max(true) == old(self).max(true),
            match r {
                Ok(prefixes) => decomposed(prefixes@, interval.span()) && final(self).prefixes()
                    == old(self).prefixes() + prefixes@,
                Err(error) => {
                    &&& final(self).prefixes() == old(self).prefixes()
                    &&& overflows(*old(self), interval.span())
                    &&& error.fault() == capacity_fault(*old(self), interval.span().v6)
                },
            },
    {
        let prefixes = interval_prefixes(interval);
        let ghost span = interval.span();
        let v6: bool = match interval {
            AddressInterval::V4 { .. } => false,
            AddressInterval::V6 { .. } => true,
        };
        proof {
            lemma_count_family(prefixes@, span.v6, false);
            lemma_count_family(prefixes@, span.v6, true);
            lemma_count_append(self.prefixes@, prefixes@, false);
            lemma_count_append(self.prefixes@, prefixes@, true);
            assert(decomposed(prefixes@, span));
        }
        let used: u64 = if v6 {
            self.ipv6
        } else {
            self.ipv4
        };
        let max_entries: u32 = if v6 {
            self.ipv6_max
        } else {
            self.ipv4_max
        };
        if prefixes.len() as u64 > max_entries as u64 - used {
            assert(prefixes@.len() + family_count(self.prefixes(), v6) > self.max(v6));
            return Err(StageError::Capacity { v6, max_entries });
        }
        if v6 {
            self.ipv6 = self.ipv6 + prefixes.len() as u64;
        } else {
            self.ipv4 = self.ipv4 + prefixes.len() as u64;
        }
        self.prefixes = Ghost(self.prefixes@ + prefixes@);
        Ok(prefixes)
    }
}

/// The prefixes of the interval are more than still fit.
pub open spec fn overflows(staging: Staging, span: Span) -> bool {
    exists|prefixes: Seq<AddressPrefix>| #[trigger]
        decomposed(prefixes, span) && prefixes.len() + family_count(staging.prefixes(), span.v6)
            > staging.max(span.v6)
}

pub open spec fn capacity_fault(staging: Staging, v6: bool) -> StageFault {
    StageFault::Capacity { v6, max_entries: staging.max(v6) }
}

/// Some interval of the list, once those before it are staged, has more prefixes than still fit.
pub open spec fn too_large(spans: Seq<Span>, max: u32, v6: bool) -> bool {
    exists|n: int, staged: Seq<AddressPrefix>, prefixes: Seq<AddressPrefix>|
        0 <= n < spans.len() && #[trigger] overflow_at(spans, n, staged, prefixes, v6)
            && family_count(staged, v6) + prefixes.len() > max
}

/// The fault says of which family the list has more prefixes than fit, and how many fit.
pub open spec fn does_not_fit(
    spans: Seq<Span>,
    ipv4_max: u32,
    ipv6_max: u32,
    fault: StageFault,
) -> bool {
    &&& fault matches StageFault::Capacity { v6, max_entries }
    &&& max_entries == if v6 {
        ipv6_max
    } else {
        ipv4_max
    }
    &&& too_large(spans, max_entries, v6)
}

/// The intervals before the one at the place are staged, and the one there is of the family and
/// has these prefixes.
pub open spec fn overflow_at(
    spans: Seq<Span>,
    n: int,
    staged: Seq<AddressPrefix>,
    prefixes: Seq<AddressPrefix>,
    v6: bool,
) -> bool {
    stages(staged, spans.take(n)) && decomposed(prefixes, spans[n]) && spans[n].v6 == v6
}

/// A list that is read and staged into the slot that is not in force.
pub struct XdpReload {
    active: u32,
    stream: ChunkStream,
    staging: Staging,
}

impl XdpReload {
    /// The slot that is in force, which staging never touches.
    pub closed spec fn active(self) -> u32 {
        self.active
    }

    /// The slot that is filled.
    pub open spec fn inactive(self) -> u32 {
        (1 - self.active()) as u32
    }

    /// The entries accepted so far.
    pub closed spec fn nets(self) -> Seq<AddressPrefix> {
        self.stream.nets()
    }

    /// The lines read so far.
    pub closed spec fn lines(self) -> nat {
        self.stream.lines()
    }

    /// The prefixes handed out so far.
    pub closed spec fn staged(self) -> Seq<AddressPrefix> {
        self.staging.prefixes()
    }

    /// How many prefixes of a family fit.
    pub closed spec fn max(self, v6: bool) -> u32 {
        self.staging.max(v6)
    }

    /// The largest number of set elements for a chunk of several intervals.
    pub closed spec fn limit(self) -> nat {
        self.stream.limit()
    }

    /// The intervals whose prefixes were handed out: those of the chunks that are complete.
    pub open spec fn spans(self) -> Seq<Span> {
        crate::layout::flat(
            crate::layout::settled(crate::layout::spans(self.nets()), self.limit()).done,
        )
    }

    pub closed spec fn wf(self) -> bool {
        &&& self.active < 2
        &&& self.stream.wf()
        &&& self.staging.wf()
        &&& stages(self.staging.prefixes(), crate::layout::flat(self.stream.done()))
    }

    /// Starts to stage a list.
    pub fn new(control: Control, batch_elements: usize, ipv4_max: u32, ipv6_max: u32) -> (reload: Self)
        requires
            control.compatible(),
            batch_elements > 0,
        ensures
            reload.wf(),
            reload.active() == control.active_slot,
            reload.nets().len() == 0,
            reload.lines() == 0,
            reload.staged().len() == 0,
            reload.limit() == batch_elements,
            reload.max(false) == ipv4_max,
            reload.max(true) == ipv6_max,
    {
        let stream = ChunkStream::new(batch_elements);
        proof {
            lemma_nothing_done(stream);
        }
        XdpReload { active: control.active_slot, stream, staging: Staging::new(ipv4_max, ipv6_max) }
    }

    /// The slot to clear before staging, and to fill.
    pub fn staging_slot(&self) -> (r: u32)
        requires
            self.wf(),
        ensures
            r == self.inactive(),
            r != self.active(),
            r < 2,
    {
        1 - self.active
    }

    /// How many prefixes of a family are staged.
    pub fn count(&self, v6: bool) -> (r: u64)
        requires
            self.wf(),
        ensures
            r == family_count(self.staged(), v6),
    {
        self.staging.count(v6)
    }

    /// Reads a line, and hands out the prefixes to put into the slot.
    pub fn push_line(&mut self, text: &str) -> (r: Result<Vec<AddressPrefix>, StageError>)
        requires
            old(self).wf(),
            old(self).lines() + 1 < usize::MAX / 2,
        ensures
            final(self).active() == old(self).active(),
            final(self).limit() == old(self).limit(),
            final(self).max(false) == old(self).max(false),
            final(self).max(true) == old(self).max(true),
            match crate::blocklist::judged(old(self).nets(), old(self).lines() + 1, text@) {
                Verdict::Refused(fault) => r matches Err(error) && error.fault()
                    == StageFault::Parse(fault),
                verdict => {
                    &&& final(self).nets() == (match verdict {
                        Verdict::Accepted(net) => old(self).nets().push(net),
                        _ => old(self).nets(),
                    })
                    &&& match r {
                        Ok(prefixes) => {
                            &&& final(self).wf()
                            &&& final(self).lines() == old(self).lines() + 1
                            &&& final(self).staged() == old(self).staged() + prefixes@
                            &&& stages(final(self).staged(), final(self).spans())
                            &&& family_count(final(self).staged(), false) <= old(self).max(false)
                            &&& family_count(final(self).staged(), true) <= old(self).max(true)
                        },
                        Err(error) => does_not_fit(
                            final(self).spans(),
                            old(self).max(false),
                            old(self).max(true),
                            error.fault(),
                        ),
                    }
                },
            },
    {
        let ghost before = self.stream.done();
        match self.stream.push_line(text) {
            Err(error) => Err(StageError::Parse(error)),
            Ok(chunks) => {
                proof {
                    lemma_flat_append(before, crate::layout::chunk_spans(chunks@));
                }
                stage_chunks(
                    &mut self.staging,
                    &chunks,
                    Ghost(crate::layout::flat(before)),
                )
            },
        }
    }

    /// Ends the list: hands out the last prefixes, and what to write to the control map once they
    /// are in the slot.
    pub fn finish(self) -> (r: Result<(Vec<AddressPrefix>, Control), StageError>)
        requires
            self.wf(),
            self.lines() < usize::MAX / 2,
        ensures
            match r {
                Ok((prefixes, control)) => {
                    &&& control == Control::selecting(self.inactive())
                    &&& stages(self.staged() + prefixes@, crate::layout::spans(self.nets()))
                    &&& family_count(self.staged() + prefixes@, false) <= self.max(false)
                    &&& family_count(self.staged() + prefixes@, true) <= self.max(true)
                },
                Err(error) => does_not_fit(
                    crate::layout::spans(self.nets()),
                    self.max(false),
                    self.max(true),
                    error.fault(),
                ),
            },
    {
        let ghost before = self.stream.done();
        let ghost nets = self.stream.nets();
        let ghost limit = self.stream.limit();
        let active: u32 = self.active;
        let mut staging = self.staging;
        let (chunks, _) = self.stream.finish();
        proof {
            let rest = crate::layout::chunk_spans(chunks@);
            lemma_flat_append(before, rest);
            crate::layout::law_chunks_keep_intervals(crate::layout::spans(nets), limit);
            assert(before + rest == crate::layout::chunked(crate::layout::spans(nets), limit));
        }
        match stage_chunks(&mut staging, &chunks, Ghost(crate::layout::flat(before))) {
            Err(error) => Err(error),
            Ok(prefixes) => {
                proof {
                    staging.law_staging_fits(false);
                    staging.law_staging_fits(true);
                }
                Ok(
                    (
                        prefixes,
                        Control { layout_version: LAYOUT_VERSION, active_slot: 1 - active },
                    ),
                )
            },
        }
    }
}

proof fn lemma_nothing_done(stream: ChunkStream)
    requires
        stream.nets() == Seq::<AddressPrefix>::empty(),
    ensures
        crate::layout::flat(stream.done()) == Seq::<Span>::empty(),
        stages(Seq::empty(), crate::layout::flat(stream.done())),
{
    assert(crate::layout::spans(stream.nets()) =~= Seq::empty());
    assert(stream.done() =~= Seq::empty());
}

proof fn lemma_flat_append(a: Seq<Seq<Span>>, b: Seq<Seq<Span>>)
    ensures
        crate::layout::flat(a + b) == crate::layout::flat(a) + crate::layout::flat(b),
    decreases b.len(),
{
    if b.len() == 0 {
        assert(a + b =~= a);
        assert(crate::layout::flat(a) + Seq::empty() =~= crate::layout::flat(a));
    } else {
        assert((a + b).drop_last() =~= a + b.drop_last());
        assert((a + b).last() == b.last());
        lemma_flat_append(a, b.drop_last());
        assert(crate::layout::flat(a + b) =~= crate::layout::flat(a) + crate::layout::flat(b));
    }
}

/// A longer list is too large where a part of it is.
pub proof fn lemma_too_large_extends(
    spans: Seq<Span>,
    more: Seq<Span>,
    max: u32,
    v6: bool,
)
    requires
        too_large(spans, max, v6),
    ensures
        too_large(spans + more, max, v6),
{
    let (n, staged, prefixes) = choose|
        n: int,
        staged: Seq<AddressPrefix>,
        prefixes: Seq<AddressPrefix>,
    |
        0 <= n < spans.len() && #[trigger] overflow_at(spans, n, staged, prefixes, v6)
            && family_count(staged, v6) + prefixes.len() > max;
    assert((spans + more).take(n) =~= spans.take(n));
    assert(overflow_at(spans + more, n, staged, prefixes, v6));
}

/// Stages intervals after those staged before.
fn stage_intervals(
    staging: &mut Staging,
    intervals: &Vec<AddressInterval>,
    out: &mut Vec<AddressPrefix>,
    Ghost(earlier): Ghost<Seq<Span>>,
) -> (r: Result<(), StageError>)
    requires
        old(staging).wf(),
        stages(old(staging).prefixes(), earlier),
        crate::blocklist::intervals_wf(intervals@),
    ensures
        final(staging).wf(),
        final(staging).max(false) == old(staging).max(false),
        final(staging).max(true) == old(staging).max(true),
        ({
            let all = earlier + crate::layout::interval_spans(intervals@);
            match r {
                Ok(_) => exists|more: Seq<AddressPrefix>|
                    {
                        &&& final(out)@ == #[trigger] (old(out)@ + more)
                        &&& final(staging).prefixes() == old(staging).prefixes() + more
                        &&& stages(final(staging).prefixes(), all)
                    },
                Err(error) => does_not_fit(
                    all,
                    old(staging).max(false),
                    old(staging).max(true),
                    error.fault(),
                ),
            }
        }),
{
    let ghost start = *staging;
    let ghost out_before = out@;
    let ghost spans = crate::layout::interval_spans(intervals@);
    let ghost mut more: Seq<AddressPrefix> = Seq::empty();
    let mut i: usize = 0;
    proof {
        assert(earlier + spans.take(0) =~= earlier);
        assert(start.prefixes() + more =~= start.prefixes());
        assert(out_before + more =~= out_before);
    }
    while i < intervals.len()
        invariant
            i <= intervals@.len(),
            start == *old(staging),
            out_before == old(out)@,
            crate::blocklist::intervals_wf(intervals@),
            spans == crate::layout::interval_spans(intervals@),
            staging.wf(),
            staging.max(false) == start.max(false),
            staging.max(true) == start.max(true),
            staging.prefixes() == start.prefixes() + more,
            out@ == out_before + more,
            stages(staging.prefixes(), earlier + spans.take(i as int)),
        decreases intervals@.len() - i,
    {
        let interval = intervals[i];
        let ghost before = *staging;
        let ghost done = earlier + spans.take(i as int);
        assert(earlier + spans.take(i + 1) =~= done.push(interval.span()));
        match staging.stage(interval) {
            Err(error) => {
                proof {
                    lemma_overflow(earlier, spans, i as int, before);
                }
                return Err(error);
            },
            Ok(prefixes) => {
                let ghost added = prefixes@;
                let mut prefixes = prefixes;
                out.append(&mut prefixes);
                proof {
                    lemma_stages_push(before.prefixes(), done, added, interval.span());
                    assert(out@ =~= out_before + (more + added));
                    assert(staging.prefixes() =~= start.prefixes() + (more + added));
                    more = more + added;
                }
            },
        }
        i = i + 1;
    }
    assert(spans.take(i as int) =~= spans);
    assert(out@ == out_before + more);
    Ok(())
}

/// Where the prefixes of an interval do not fit any more, the list is too large.
proof fn lemma_overflow(earlier: Seq<Span>, spans: Seq<Span>, i: int, staging: Staging)
    requires
        0 <= i < spans.len(),
        stages(staging.prefixes(), earlier + spans.take(i)),
        overflows(staging, spans[i]),
    ensures
        too_large(earlier + spans, staging.max(spans[i].v6), spans[i].v6),
{
    let whole = earlier + spans;
    let v6 = spans[i].v6;
    let n = earlier.len() + i;
    let prefixes = choose|prefixes: Seq<AddressPrefix>| #[trigger]
        decomposed(prefixes, spans[i]) && prefixes.len() + family_count(staging.prefixes(), v6)
            > staging.max(v6);
    assert(whole.take(n) =~= earlier + spans.take(i));
    assert(whole[n] == spans[i]);
    assert(overflow_at(whole, n, staging.prefixes(), prefixes, v6));
}

/// Stages the intervals of some chunks after those staged before.
fn stage_chunks(
    staging: &mut Staging,
    chunks: &Vec<Vec<AddressInterval>>,
    Ghost(earlier): Ghost<Seq<Span>>,
) -> (r: Result<Vec<AddressPrefix>, StageError>)
    requires
        old(staging).wf(),
        stages(old(staging).prefixes(), earlier),
        crate::blocklist::chunks_wf(chunks@),
    ensures
        final(staging).wf(),
        final(staging).max(false) == old(staging).max(false),
        final(staging).max(true) == old(staging).max(true),
        ({
            let all = earlier + crate::layout::flat(crate::layout::chunk_spans(chunks@));
            match r {
                Ok(prefixes) => {
                    &&& final(staging).prefixes() == old(staging).prefixes() + prefixes@
                    &&& stages(final(staging).prefixes(), all)
                },
                Err(error) => does_not_fit(
                    all,
                    old(staging).max(false),
                    old(staging).max(true),
                    error.fault(),
                ),
            }
        }),
{
    let ghost start = *staging;
    let ghost spans = crate::layout::chunk_spans(chunks@);
    let ghost whole = earlier + crate::layout::flat(spans);
    let mut out: Vec<AddressPrefix> = Vec::new();
    let mut k: usize = 0;
    proof {
        assert(spans.take(0) =~= Seq::empty());
        assert(earlier + crate::layout::flat(spans.take(0)) =~= earlier);
        assert(start.prefixes() + out@ =~= start.prefixes());
    }
    while k < chunks.len()
        invariant
            k <= chunks@.len(),
            start == *old(staging),
            crate::blocklist::chunks_wf(chunks@),
            spans == crate::layout::chunk_spans(chunks@),
            whole == earlier + crate::layout::flat(spans),
            staging.wf(),
            staging.max(false) == start.max(false),
            staging.max(true) == start.max(true),
            staging.prefixes() == start.prefixes() + out@,
            stages(staging.prefixes(), earlier + crate::layout::flat(spans.take(k as int))),
        decreases chunks@.len() - k,
    {
        let ghost so_far = earlier + crate::layout::flat(spans.take(k as int));
        let ghost part = spans[k as int];
        let ghost later = crate::layout::flat(spans.skip(k + 1));
        let ghost before = *staging;
        let ghost had = out@;
        proof {
            assert(spans.take(k + 1) =~= spans.take(k as int).push(part));
            crate::layout::lemma_flat_push(spans.take(k as int), part);
            assert(earlier + crate::layout::flat(spans.take(k + 1)) =~= so_far + part);
            assert(spans =~= spans.take(k + 1) + spans.skip(k + 1));
            lemma_flat_append(spans.take(k + 1), spans.skip(k + 1));
            assert(whole =~= (so_far + part) + later);
            assert(crate::blocklist::intervals_wf(chunks@[k as int]@));
        }
        match stage_intervals(staging, &chunks[k], &mut out, Ghost(so_far)) {
            Err(error) => {
                proof {
                    let v6 = error.fault()->Capacity_v6;
                    lemma_too_large_extends(so_far + part, later, before.max(v6), v6);
                    assert(too_large(whole, start.max(v6), v6));
                }
                return Err(error);
            },
            Ok(_) => {
                proof {
                    let more = choose|more: Seq<AddressPrefix>|
                        out@ == #[trigger] (had + more) && staging.prefixes() == before.prefixes()
                            + more && stages(staging.prefixes(), so_far + part);
                    assert(start.prefixes() + had + more =~= start.prefixes() + out@);
                }
            },
        }
        k = k + 1;
    }
    proof {
        assert(spans.take(k as int) =~= spans);
    }
    Ok(out)
}

/// The pinned maps: which slot is in force, and the prefixes in the tables of each slot.
pub struct Maps {
    pub control: Control,
    pub first: Seq<AddressPrefix>,
    pub second: Seq<AddressPrefix>,
}

impl Maps {
    /// The prefixes in the tables of a slot.
    pub open spec fn slot(self, slot: u32) -> Seq<AddressPrefix> {
        if slot == 0 {
            self.first
        } else {
            self.second
        }
    }

    /// The maps after a slot was emptied.
    pub open spec fn cleared(self, slot: u32) -> Maps {
        if slot == 0 {
            Maps { first: Seq::empty(), ..self }
        } else {
            Maps { second: Seq::empty(), ..self }
        }
    }

    /// The maps after prefixes were put into a slot.
    pub open spec fn filled(self, slot: u32, prefixes: Seq<AddressPrefix>) -> Maps {
        if slot == 0 {
            Maps { first: self.first + prefixes, ..self }
        } else {
            Maps { second: self.second + prefixes, ..self }
        }
    }

    /// The maps after the control map was written.
    pub open spec fn activated(self, control: Control) -> Maps {
        Maps { control, ..self }
    }

    /// The program drops the frame: the tables of the slot in force hold its source address.
    pub open spec fn drops(self, packet: Seq<u8>) -> bool {
        match crate::packet::lookup_of(packet, Some(self.control)) {
            crate::packet::Lookup::Pass => false,
            crate::packet::Lookup::V4 { second, address } => crate::address::prefixes_contain(
                if second {
                    self.second
                } else {
                    self.first
                },
                false,
                address as int,
            ),
            crate::packet::Lookup::V6 { second, address } => crate::address::prefixes_contain(
                if second {
                    self.second
                } else {
                    self.first
                },
                true,
                address as int,
            ),
        }
    }
}

/// Emptying and filling the slot that is not in force changes nothing for any packet. So a list
/// that is refused, or does not fit, leaves the filter as it was.
pub proof fn law_staging_is_invisible(
    maps: Maps,
    slot: u32,
    prefixes: Seq<AddressPrefix>,
    packet: Seq<u8>,
)
    requires
        maps.control.compatible(),
        slot < 2,
        slot != maps.control.active_slot,
    ensures
        maps.cleared(slot).drops(packet) == maps.drops(packet),
        maps.filled(slot, prefixes).drops(packet) == maps.drops(packet),
        maps.cleared(slot).control == maps.control,
        maps.filled(slot, prefixes).control == maps.control,
{
}

/// The source address of a frame is in the list.
pub open spec fn source_listed(packet: Seq<u8>, nets: Seq<AddressPrefix>) -> bool {
    match crate::packet::source_of(packet) {
        crate::packet::Source::Absent => false,
        crate::packet::Source::V4 { address } => crate::layout::nets_contain(
            nets,
            false,
            address as int,
        ),
        crate::packet::Source::V6 { address } => crate::layout::nets_contain(
            nets,
            true,
            address as int,
        ),
    }
}

/// Once all prefixes of a list are in a cleared slot and the control map selects it, exactly the
/// frames whose source address is in the list are dropped, also after the other slot is emptied.
pub proof fn law_activation_enforces_list(
    maps: Maps,
    slot: u32,
    prefixes: Seq<AddressPrefix>,
    nets: Seq<AddressPrefix>,
    packet: Seq<u8>,
)
    requires
        slot < 2,
        stages(prefixes, crate::layout::spans(nets)),
    ensures
        ({
            let active = maps.cleared(slot).filled(slot, prefixes).activated(
                Control::selecting(slot),
            );
            &&& active.drops(packet) == source_listed(packet, nets)
            &&& active.cleared((1 - slot) as u32).drops(packet) == source_listed(packet, nets)
        }),
{
    assert(Seq::<AddressPrefix>::empty() + prefixes =~= prefixes);
    match crate::packet::source_of(packet) {
        crate::packet::Source::Absent => {},
        crate::packet::Source::V4 { address } => {
            law_staged_prefixes_cover(
                prefixes,
                crate::layout::spans(nets),
                false,
                address as int,
            );
            crate::layout::law_spans_cover_entries(nets, false, address as int);
        },
        crate::packet::Source::V6 { address } => {
            law_staged_prefixes_cover(prefixes, crate::layout::spans(nets), true, address as int);
            crate::layout::law_spans_cover_entries(nets, true, address as int);
        },
    }
}

/// An interval has one decomposition, so every list of its prefixes is as long as every other.
proof fn lemma_same_length(a: Seq<AddressPrefix>, b: Seq<AddressPrefix>, span: Span)
    requires
        decomposed(a, span),
        decomposed(b, span),
    ensures
        a.len() == b.len(),
{
    crate::dyadic::law_decomposition_is_unique(
        crate::address::blocks(a),
        crate::address::blocks(b),
        span.first,
        span.end,
    );
    assert(crate::address::blocks(a).len() == a.len());
    assert(crate::address::blocks(b).len() == b.len());
}

/// What is behind a place and of one family counts for that family.
proof fn lemma_count_split(all: Seq<AddressPrefix>, n: int, family: bool, v6: bool)
    requires
        0 <= n <= all.len(),
        crate::address::of_family(all.skip(n), family),
    ensures
        family_count(all, v6) == family_count(all.take(n), v6) + if family == v6 {
            (all.len() - n) as nat
        } else {
            0
        },
{
    lemma_count_family(all.skip(n), family, v6);
    lemma_count_append(all.take(n), all.skip(n), v6);
    assert(all.take(n) + all.skip(n) =~= all);
}

/// The prefixes of the last interval come last.
proof fn lemma_last_part(all: Seq<AddressPrefix>, spans: Seq<Span>, v6: bool) -> (n: int)
    requires
        stages(all, spans),
        spans.len() > 0,
    ensures
        0 <= n <= all.len(),
        stages(all.take(n), spans.drop_last()),
        decomposed(all.skip(n), spans.last()),
        family_count(all, v6) == family_count(all.take(n), v6) + if spans.last().v6 == v6 {
            (all.len() - n) as nat
        } else {
            0
        },
{
    let last = spans.last();
    let n = choose|n: int|
        0 <= n <= all.len() && stages(#[trigger] all.take(n), spans.drop_last()) && decomposed(
            all.skip(n),
            last,
        );
    lemma_count_split(all, n, last.v6, v6);
    n
}

proof fn lemma_same_count(a: Seq<AddressPrefix>, b: Seq<AddressPrefix>, spans: Seq<Span>, v6: bool)
    requires
        stages(a, spans),
        stages(b, spans),
    ensures
        family_count(a, v6) == family_count(b, v6),
    decreases spans.len(),
{
    if spans.len() > 0 {
        let n = lemma_last_part(a, spans, v6);
        let m = lemma_last_part(b, spans, v6);
        lemma_same_count(a.take(n), b.take(m), spans.drop_last(), v6);
        lemma_same_length(a.skip(n), b.skip(m), spans.last());
    } else {
        assert(a =~= b);
    }
}

/// Where the prefixes of an interval do not fit after those before it, all of them do not.
proof fn lemma_overflow_counts(
    all: Seq<AddressPrefix>,
    spans: Seq<Span>,
    n: int,
    staged: Seq<AddressPrefix>,
    prefixes: Seq<AddressPrefix>,
    v6: bool,
)
    requires
        stages(all, spans),
        0 <= n < spans.len(),
        overflow_at(spans, n, staged, prefixes, v6),
    ensures
        family_count(all, v6) >= family_count(staged, v6) + prefixes.len(),
    decreases spans.len(),
{
    let m = lemma_last_part(all, spans, v6);
    let before = spans.drop_last();
    if n == spans.len() - 1 {
        assert(spans.take(n) =~= before);
        lemma_same_count(all.take(m), staged, before, v6);
        lemma_same_length(all.skip(m), prefixes, spans.last());
    } else {
        assert(before.take(n) =~= spans.take(n));
        assert(overflow_at(before, n, staged, prefixes, v6));
        lemma_overflow_counts(all.take(m), before, n, staged, prefixes, v6);
    }
}

/// A list is refused for want of room only where it has more prefixes of the family than fit:
/// however its intervals are staged, one that just fits is not refused.
pub proof fn law_refused_lists_do_not_fit(
    all: Seq<AddressPrefix>,
    spans: Seq<Span>,
    max: u32,
    v6: bool,
)
    requires
        too_large(spans, max, v6),
        stages(all, spans),
    ensures
        family_count(all, v6) > max,
{
    let (n, staged, prefixes) = choose|
        n: int,
        staged: Seq<AddressPrefix>,
        prefixes: Seq<AddressPrefix>,
    |
        0 <= n < spans.len() && #[trigger] overflow_at(spans, n, staged, prefixes, v6)
            && family_count(staged, v6) + prefixes.len() > max;
    lemma_overflow_counts(all, spans, n, staged, prefixes, v6);
}

/// One interval is refused only where its prefixes, with those staged before, are more than fit.
pub proof fn law_refused_intervals_do_not_fit(
    staging: Staging,
    span: Span,
    prefixes: Seq<AddressPrefix>,
)
    requires
        overflows(staging, span),
        decomposed(prefixes, span),
    ensures
        family_count(staging.prefixes(), span.v6) + prefixes.len() > staging.max(span.v6),
{
    let others = choose|others: Seq<AddressPrefix>| #[trigger]
        decomposed(others, span) && others.len() + family_count(staging.prefixes(), span.v6)
            > staging.max(span.v6);
    lemma_same_length(prefixes, others, span);
}

/// Every prefix counts for its own family, and for that alone.
pub proof fn law_each_prefix_counts_once(
    prefixes: Seq<AddressPrefix>,
    prefix: AddressPrefix,
    v6: bool,
)
    ensures
        family_count(Seq::empty(), v6) == 0,
        family_count(prefixes.push(prefix), v6) == family_count(prefixes, v6) + if (prefix is V6)
            == v6 {
            1nat
        } else {
            0nat
        },
        family_count(prefixes, false) + family_count(prefixes, true) == prefixes.len(),
    decreases prefixes.len(),
{
    assert(prefixes.push(prefix).drop_last() =~= prefixes);
    if prefixes.len() > 0 {
        law_each_prefix_counts_once(prefixes.drop_last(), prefix, v6);
    }
}

/// A list that does not fit is told apart by the family that it does not fit for.
pub proof fn law_families_are_told_apart(max_entries: u32, other: u32)
    ensures
        (StageFault::Capacity { v6: true, max_entries }).message() != (StageFault::Capacity {
            v6: false,
            max_entries: other,
        }).message(),
{
    reveal_strlit("XDP IPv6 map capacity exceeded (");
    reveal_strlit("XDP IPv4 map capacity exceeded (");
    let a = (StageFault::Capacity { v6: true, max_entries }).message();
    let b = (StageFault::Capacity { v6: false, max_entries: other }).message();
    assert(a[7] == '6');
    assert(b[7] == '4');
}

/// The slot that is filled is one of the two, and never the one in force.
pub proof fn law_the_other_slot_is_filled(reload: XdpReload)
    requires
        reload.active() < 2,
    ensures
        reload.inactive() < 2,
        reload.inactive() != reload.active(),
{
}

} // verus!
