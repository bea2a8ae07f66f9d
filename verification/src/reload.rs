//! Replacing the list that XDP enforces, action by action.
use crate::address::AddressPrefix;
use crate::blocklist::Verdict;
use crate::control::Control;
use crate::xdp::Maps;
use crate::xdp::StageError;
use crate::xdp::StageFault;
use crate::xdp::XdpReload;
use vstd::prelude::*;

verus! {

/// Where a replacement stands.
#[derive(Debug, Clone, Copy, PartialEq, Eq, Structural)]
pub enum Stage {
    /// The slot to fill is being emptied.
    Clearing,
    /// A line of the list is being read.
    Reading,
    /// Prefixes are being put into the slot; more lines may follow.
    Inserting,
    /// The last prefixes are being put into the slot.
    Completing(Control),
    /// The list was refused, and the slot is being emptied again.
    Abandoning,
    /// The control map is being written.
    Activating,
    /// The slot that was in force is being emptied.
    Retiring,
    /// The replacement is over.
    Ended,
}

/// What came of the last action.
#[derive(Debug, Clone, PartialEq, Eq)]
pub enum Event {
    /// It was done.
    Done,
    /// It failed.
    Failed,
    /// A line was read.
    Line(String),
    /// There are no more lines.
    End,
}

/// What to do next.
#[derive(Debug)]
pub enum Action {
    /// Empty the tables of a slot.
    Clear(u32),
    /// Read the next line of the list.
    ReadLine,
    /// Put prefixes into the tables of a slot.
    Insert { slot: u32, prefixes: Vec<AddressPrefix> },
    /// Write the control map.
    Activate(Control),
    /// The list is in force.
    Succeed,
    /// The list in force before still is; the reason, where it lies in the list.
    Fail(Option<StageError>),
}

/// An event that can follow the action of a stage.
pub open spec fn follows(stage: Stage, event: Event) -> bool {
    match stage {
        Stage::Ended => false,
        Stage::Reading => !(event is Done),
        _ => event is Done || event is Failed,
    }
}

/// A replacement of the list.
pub struct Replacement {
    stage: Stage,
    active: u32,
    reload: Option<XdpReload>,
    error: Option<StageError>,
}

impl Replacement {
    pub closed spec fn stage(self) -> Stage {
        self.stage
    }

    /// The slot that is in force when the replacement begins.
    pub closed spec fn active(self) -> u32 {
        self.active
    }

    /// The slot that is filled.
    pub open spec fn inactive(self) -> u32 {
        (1 - self.active()) as u32
    }

    /// The state of reading the list.
    pub closed spec fn reload(self) -> XdpReload {
        self.reload->0
    }

    /// Why the list was refused.
    pub closed spec fn refused(self) -> Option<StageFault> {
        match self.error {
            Some(error) => Some(error.fault()),
            None => None,
        }
    }

    pub closed spec fn wf(self) -> bool {
        &&& self.active < 2
        &&& self.stage is Clearing || self.stage is Reading || self.stage is Inserting ==> {
            &&& self.reload matches Some(reload)
            &&& reload.wf()
            &&& reload.active() == self.active
            &&& self.error is None
        }
        &&& self.stage matches Stage::Completing(control) ==> control == Control::selecting(
            (1 - self.active) as u32,
        ) && self.error is None
    }

    /// Begins a replacement; the first action is to empty the slot that is not in force.
    pub fn new(control: Control, batch_elements: usize, ipv4_max: u32, ipv6_max: u32) -> (r: (
        Self,
        Action,
    ))
        requires
            control.compatible(),
            batch_elements > 0,
        ensures
            r.0.wf(),
            r.0.stage() == Stage::Clearing,
            r.0.active() == control.active_slot,
            r.0.reload().nets().len() == 0,
            r.0.reload().lines() == 0,
            r.0.reload().staged().len() == 0,
            r.0.reload().limit() == batch_elements,
            r.0.reload().max(false) == ipv4_max,
            r.0.reload().max(true) == ipv6_max,
            r.1 == Action::Clear(r.0.inactive()),
    {
        let reload = XdpReload::new(control, batch_elements, ipv4_max, ipv6_max);
        let slot: u32 = reload.staging_slot();
        (
            Replacement {
                stage: Stage::Clearing,
                active: control.active_slot,
                reload: Some(reload),
                error: None,
            },
            Action::Clear(slot),
        )
    }

    /// Takes in what came of the last action, and says what to do next.
    pub fn step(&mut self, event: Event) -> (r: Action)
        requires
            old(self).wf(),
            follows(old(self).stage(), event),
            old(self).stage() is Reading ==> old(self).reload().lines() + 1 < usize::MAX / 2,
        ensures
            final(self).wf(),
            final(self).active() == old(self).active(),
            stepped(*old(self), event, *final(self), r),
    {
        let inactive: u32 = 1 - self.active;
        match self.stage {
            Stage::Clearing => {
                match event {
                    Event::Failed => {
                        self.stage = Stage::Ended;
                        Action::Fail(None)
                    },
                    _ => {
                        self.stage = Stage::Reading;
                        Action::ReadLine
                    },
                }
            },
            Stage::Reading => {
                match event {
                    Event::Line(text) => self.take_line(text),
                    Event::End => self.take_end(),
                    _ => {
                        self.stage = Stage::Abandoning;
                        Action::Clear(inactive)
                    },
                }
            },
            Stage::Inserting => {
                match event {
                    Event::Failed => {
                        self.stage = Stage::Abandoning;
                        Action::Clear(inactive)
                    },
                    _ => {
                        self.stage = Stage::Reading;
                        Action::ReadLine
                    },
                }
            },
            Stage::Completing(control) => {
                match event {
                    Event::Failed => {
                        self.stage = Stage::Abandoning;
                        Action::Clear(inactive)
                    },
                    _ => {
                        self.stage = Stage::Activating;
                        Action::Activate(control)
                    },
                }
            },
            Stage::Abandoning => {
                self.stage = Stage::Ended;
                let error = self.error.take();
                Action::Fail(error)
            },
            Stage::Activating => {
                match event {
                    Event::Failed => {
                        self.stage = Stage::Ended;
                        Action::Fail(None)
                    },
                    _ => {
                        self.stage = Stage::Retiring;
                        Action::Clear(self.active)
                    },
                }
            },
            Stage::Retiring => {
                self.stage = Stage::Ended;
                Action::Succeed
            },
            Stage::Ended => Action::Fail(None),
        }
    }

    fn take_line(&mut self, text: String) -> (r: Action)
        requires
            old(self).wf(),
            old(self).stage() is Reading,
            old(self).reload().lines() + 1 < usize::MAX / 2,
        ensures
            final(self).wf(),
            final(self).active() == old(self).active(),
            read_line(*old(self), text@, *final(self), r),
    {
        let inactive: u32 = 1 - self.active;
        match self.reload.take() {
            Some(reload) => {
                let mut reload = reload;
                match reload.push_line(text.as_str()) {
                    Ok(prefixes) => {
                        self.reload = Some(reload);
                        self.stage = Stage::Inserting;
                        Action::Insert { slot: inactive, prefixes }
                    },
                    Err(error) => {
                        self.reload = Some(reload);
                        self.error = Some(error);
                        self.stage = Stage::Abandoning;
                        Action::Clear(inactive)
                    },
                }
            },
            None => Action::Fail(None),
        }
    }

    fn take_end(&mut self) -> (r: Action)
        requires
            old(self).wf(),
            old(self).stage() is Reading,
            old(self).reload().lines() < usize::MAX / 2,
        ensures
            final(self).wf(),
            final(self).active() == old(self).active(),
            read_end(*old(self), *final(self), r),
    {
        let inactive: u32 = 1 - self.active;
        match self.reload.take() {
            Some(reload) => match reload.finish() {
                Ok((prefixes, control)) => {
                    self.stage = Stage::Completing(control);
                    Action::Insert { slot: inactive, prefixes }
                },
                Err(error) => {
                    self.error = Some(error);
                    self.stage = Stage::Abandoning;
                    Action::Clear(inactive)
                },
            },
            None => Action::Fail(None),
        }
    }
}

/// The list was refused for this reason: the slot is emptied again.
pub open spec fn abandons(
    before: Replacement,
    after: Replacement,
    action: Action,
    fault: Option<StageFault>,
) -> bool {
    &&& after.stage() == Stage::Abandoning
    &&& action == Action::Clear(before.inactive())
    &&& after.refused() == fault
}

/// What follows a line that was read. What has been handed out for the slot once a line is accepted
/// is the decomposition of the chunks that are complete so far.
pub open spec fn read_line(
    before: Replacement,
    text: Seq<char>,
    after: Replacement,
    action: Action,
) -> bool {
    let old = before.reload();
    let new = after.reload();
    match crate::blocklist::judged(old.nets(), old.lines() + 1, text) {
        Verdict::Refused(fault) => abandons(before, after, action, Some(StageFault::Parse(fault))),
        verdict => {
            &&& new.nets() == (match verdict {
                Verdict::Accepted(net) => old.nets().push(net),
                _ => old.nets(),
            })
            &&& if after.stage() == Stage::Inserting {
                &&& action matches Action::Insert { slot, prefixes }
                &&& slot == before.inactive()
                &&& new.staged() == old.staged() + prefixes@
                &&& crate::xdp::stages(new.staged(), new.spans())
                &&& crate::xdp::family_count(new.staged(), false) <= old.max(false)
                &&& crate::xdp::family_count(new.staged(), true) <= old.max(true)
                &&& new.lines() == old.lines() + 1
                &&& new.limit() == old.limit()
                &&& new.max(false) == old.max(false)
                &&& new.max(true) == old.max(true)
            } else {
                &&& after.refused() matches Some(fault)
                &&& abandons(before, after, action, Some(fault))
                &&& new.limit() == old.limit()
                &&& crate::xdp::does_not_fit(new.spans(), old.max(false), old.max(true), fault)
            }
        },
    }
}

/// What follows the end of the list.
pub open spec fn read_end(before: Replacement, after: Replacement, action: Action) -> bool {
    let old = before.reload();
    let spans = crate::layout::spans(old.nets());
    if after.stage() is Completing {
        &&& after.stage() == Stage::Completing(Control::selecting(before.inactive()))
        &&& action matches Action::Insert { slot, prefixes }
        &&& slot == before.inactive()
        &&& crate::xdp::stages(old.staged() + prefixes@, spans)
        &&& crate::xdp::family_count(old.staged() + prefixes@, false) <= old.max(false)
        &&& crate::xdp::family_count(old.staged() + prefixes@, true) <= old.max(true)
    } else {
        &&& after.refused() matches Some(fault)
        &&& abandons(before, after, action, Some(fault))
        &&& crate::xdp::does_not_fit(spans, old.max(false), old.max(true), fault)
    }
}

/// What a step does.
pub open spec fn stepped(
    before: Replacement,
    event: Event,
    after: Replacement,
    action: Action,
) -> bool {
    let failed = event is Failed;
    match before.stage() {
        Stage::Clearing => if failed {
            after.stage() == Stage::Ended && action == Action::Fail(None)
        } else {
            after.stage() == Stage::Reading && action == Action::ReadLine && after.reload()
                == before.reload()
        },
        Stage::Reading => match event {
            Event::Line(text) => read_line(before, text@, after, action),
            Event::End => read_end(before, after, action),
            _ => abandons(before, after, action, None),
        },
        Stage::Inserting => if failed {
            abandons(before, after, action, None)
        } else {
            after.stage() == Stage::Reading && action == Action::ReadLine && after.reload()
                == before.reload()
        },
        Stage::Completing(control) => if failed {
            abandons(before, after, action, None)
        } else {
            after.stage() == Stage::Activating && action == Action::Activate(control)
        },
        Stage::Abandoning => {
            &&& after.stage() == Stage::Ended
            &&& action matches Action::Fail(error)
            &&& match error {
                Some(error) => before.refused() == Some(error.fault()),
                None => before.refused() is None,
            }
        },
        Stage::Activating => if failed {
            after.stage() == Stage::Ended && action == Action::Fail(None)
        } else {
            after.stage() == Stage::Retiring && action == Action::Clear(before.active())
        },
        Stage::Retiring => after.stage() == Stage::Ended && action == Action::Succeed,
        Stage::Ended => true,
    }
}

/// The maps once an action was done. One that reads, or ends the replacement, leaves them alone.
pub open spec fn performed(maps: Maps, action: Action) -> Maps {
    match action {
        Action::Clear(slot) => maps.cleared(slot),
        Action::Insert { slot, prefixes } => maps.filled(slot, prefixes@),
        Action::Activate(control) => maps.activated(control),
        _ => maps,
    }
}

/// Until the control map is written, the action of a step never changes what any packet meets, and
/// the maps still select the slot that was in force. Whatever makes the replacement fail, the
/// filter stays as it was.
pub proof fn law_failed_replacement_changes_nothing(
    before: Replacement,
    event: Event,
    after: Replacement,
    action: Action,
    maps: Maps,
    packet: Seq<u8>,
)
    requires
        before.active() < 2,
        maps.control == Control::selecting(before.active()),
        stepped(before, event, after, action),
        follows(before.stage(), event),
        after.stage() != Stage::Activating,
        before.stage() != Stage::Activating,
        before.stage() != Stage::Retiring,
    ensures
        performed(maps, action).drops(packet) == maps.drops(packet),
        performed(maps, action).control == maps.control,
{
    match action {
        Action::Clear(slot) => {
            crate::xdp::law_staging_is_invisible(maps, slot, Seq::empty(), packet);
        },
        Action::Insert { slot, prefixes } => {
            crate::xdp::law_staging_is_invisible(maps, slot, prefixes@, packet);
        },
        _ => {},
    }
}

/// The slot that is filled holds the prefixes handed out so far, and the maps select the other one.
pub open spec fn in_step(replacement: Replacement, maps: Maps) -> bool {
    &&& replacement.active() < 2
    &&& maps.control == Control::selecting(replacement.active())
    &&& maps.slot(replacement.inactive()) == replacement.reload().staged()
}

/// Emptying the slot, which is the first action, brings the maps in step with a new replacement.
pub proof fn law_first_clear_is_in_step(replacement: Replacement, maps: Maps)
    requires
        replacement.active() < 2,
        maps.control == Control::selecting(replacement.active()),
        replacement.reload().staged().len() == 0,
    ensures
        in_step(replacement, performed(maps, Action::Clear(replacement.inactive()))),
{
    assert(replacement.reload().staged() =~= Seq::empty());
}

/// Once the slot is cleared, doing each action keeps the slot in step with what was handed out, and
/// when the last prefixes are in, writing the control map puts exactly the list into force:
/// the frames whose source address is in the list are dropped, and no others.
pub proof fn law_successful_replacement_enforces_list(
    before: Replacement,
    event: Event,
    after: Replacement,
    action: Action,
    maps: Maps,
    packet: Seq<u8>,
)
    requires
        in_step(before, maps),
        after.active() == before.active(),
        before.stage() == Stage::Reading || before.stage() == Stage::Inserting,
        follows(before.stage(), event),
        stepped(before, event, after, action),
    ensures
        after.stage() == Stage::Reading || after.stage() == Stage::Inserting ==> in_step(
            after,
            performed(maps, action),
        ),
        after.stage() matches Stage::Completing(control) ==> {
            let full = performed(maps, action).activated(control);
            &&& full.drops(packet) == crate::xdp::source_listed(packet, before.reload().nets())
            &&& full.cleared(before.active()).drops(packet) == crate::xdp::source_listed(
                packet,
                before.reload().nets(),
            )
        },
{
    match after.stage() {
        Stage::Completing(control) => {
            let slot = before.inactive();
            let more = action->prefixes@;
            let all = before.reload().staged() + more;
            crate::xdp::law_activation_enforces_list(
                maps,
                slot,
                all,
                before.reload().nets(),
                packet,
            );
            let full = performed(maps, action).activated(control);
            let expected = maps.cleared(slot).filled(slot, all).activated(
                Control::selecting(slot),
            );
            assert(Seq::<AddressPrefix>::empty() + all =~= all);
            assert(full.slot(slot) == expected.slot(slot));
            assert(full.drops(packet) == expected.drops(packet));
        },
        _ => {},
    }
}

/// A replacement, event by event: where it stood before each event and at the end, what was to be
/// done then, and what the maps held before that was done.
pub struct Course {
    pub replacements: Seq<Replacement>,
    pub actions: Seq<Action>,
    pub maps: Seq<Maps>,
    pub events: Seq<Event>,
}

/// The maps after an action was tried. One that failed may have been done in part: it has touched
/// no other slot than its own, and a control map that could not be written is as it was.
pub open spec fn tried(maps: Maps, action: Action, event: Event, now: Maps) -> bool {
    if !(event is Failed) {
        now == performed(maps, action)
    } else {
        &&& now.control == maps.control
        &&& match action {
            Action::Clear(slot) | Action::Insert { slot, .. } => now.slot(
                if slot == 0 {
                    1
                } else {
                    0
                },
            ) == maps.slot(
                if slot == 0 {
                    1
                } else {
                    0
                },
            ),
            _ => now == maps,
        }
    }
}

/// The lines that the events report.
pub open spec fn lines_of(events: Seq<Event>) -> Seq<Seq<char>>
    decreases events.len(),
{
    if events.len() == 0 {
        Seq::empty()
    } else {
        match events.last() {
            Event::Line(text) => lines_of(events.drop_last()).push(text@),
            _ => lines_of(events.drop_last()),
        }
    }
}

/// Something that was to be done failed.
pub open spec fn some_failed(events: Seq<Event>) -> bool {
    exists|i: int| 0 <= i < events.len() && #[trigger] events[i] is Failed
}

impl Course {
    /// The replacement begins anew, and each event takes it one step further.
    pub open spec fn wf(self) -> bool {
        &&& self.replacements.len() == self.events.len() + 1
        &&& self.actions.len() == self.events.len() + 1
        &&& self.maps.len() == self.events.len() + 1
        &&& begins(self.replacements[0], self.actions[0], self.maps[0])
        &&& forall|i: int|
            0 <= i < self.events.len() ==> goes_on(
                self.replacements[i],
                self.actions[i],
                self.maps[i],
                #[trigger] self.events[i],
                self.replacements[i + 1],
                self.actions[i + 1],
                self.maps[i + 1],
            )
    }
}

/// The replacement is at its beginning, on maps that select the slot in force.
pub open spec fn begins(replacement: Replacement, action: Action, maps: Maps) -> bool {
    &&& replacement.stage() == Stage::Clearing
    &&& replacement.active() < 2
    &&& maps.control == Control::selecting(replacement.active())
    &&& action == Action::Clear(replacement.inactive())
    &&& replacement.reload().nets().len() == 0
    &&& replacement.reload().lines() == 0
    &&& replacement.reload().staged().len() == 0
}

pub open spec fn goes_on(
    before: Replacement,
    action: Action,
    maps: Maps,
    event: Event,
    after: Replacement,
    next: Action,
    now: Maps,
) -> bool {
    &&& follows(before.stage(), event)
    &&& stepped(before, event, after, next)
    &&& after.active() == before.active()
    &&& tried(maps, action, event, now)
}

/// The slot that was in force still is, with what it held.
spec fn is_untouched(replacement: Replacement, maps: Maps, first: Maps) -> bool {
    &&& maps.control == first.control
    &&& first.control == Control::selecting(replacement.active())
    &&& maps.slot(replacement.active()) == first.slot(replacement.active())
}

/// The lines so far could all be read, and these are their entries.
spec fn has_read(nets: Seq<AddressPrefix>, lines: Seq<Seq<char>>) -> bool {
    crate::blocklist::reading(lines).fault is None && crate::blocklist::reading(lines).nets == nets
}

/// The slot that was filled holds the whole list.
spec fn holds_list(
    replacement: Replacement,
    maps: Maps,
    lines: Seq<Seq<char>>,
    start: XdpReload,
) -> bool {
    let held = maps.slot(replacement.inactive());
    &&& crate::blocklist::reading(lines).fault is None
    &&& crate::xdp::family_count(held, false) <= start.max(false)
    &&& crate::xdp::family_count(held, true) <= start.max(true)
    &&& crate::xdp::stages(held, crate::layout::spans(crate::blocklist::reading(lines).nets))
}

/// Why the replacement is given up is so.
spec fn is_true_of(fault: Option<StageFault>, events: Seq<Event>, start: XdpReload) -> bool {
    let reading = crate::blocklist::reading(lines_of(events));
    match fault {
        None => some_failed(events),
        Some(StageFault::Parse(fault)) => reading.fault == Some(fault),
        Some(StageFault::Capacity { v6, max_entries }) => {
            &&& reading.fault is None
            &&& max_entries == start.max(v6)
            &&& crate::xdp::too_large(crate::layout::spans(reading.nets), max_entries, v6)
                || exists|limit: nat| #[trigger]
                crate::xdp::too_large(
                    crate::layout::flat(
                        crate::layout::settled(crate::layout::spans(reading.nets), limit).done,
                    ),
                    max_entries,
                    v6,
                )
        },
    }
}

/// As many prefixes of each family fit as at the start.
spec fn has_room_of(reload: XdpReload, start: XdpReload) -> bool {
    reload.max(false) == start.max(false) && reload.max(true) == start.max(true)
}

spec fn on_course(
    replacement: Replacement,
    action: Action,
    maps: Maps,
    events: Seq<Event>,
    first: Maps,
    start: XdpReload,
) -> bool {
    let lines = lines_of(events);
    let reload = replacement.reload();
    let next = performed(maps, action);
    &&& replacement.active() < 2
    &&& match replacement.stage() {
        Stage::Clearing => {
            &&& is_untouched(replacement, maps, first)
            &&& action == Action::Clear(replacement.inactive())
            &&& lines.len() == 0
            &&& reload.nets().len() == 0
            &&& reload.lines() == 0
            &&& reload.staged().len() == 0
            &&& has_room_of(reload, start)
        },
        Stage::Reading => {
            &&& is_untouched(replacement, maps, first)
            &&& action is ReadLine
            &&& in_step(replacement, maps)
            &&& has_read(reload.nets(), lines)
            &&& reload.lines() == lines.len()
            &&& has_room_of(reload, start)
        },
        Stage::Inserting => {
            &&& is_untouched(replacement, maps, first)
            &&& action matches Action::Insert { slot, .. } && slot == replacement.inactive()
            &&& in_step(replacement, next)
            &&& has_read(reload.nets(), lines)
            &&& reload.lines() == lines.len()
            &&& has_room_of(reload, start)
        },
        Stage::Completing(control) => {
            &&& is_untouched(replacement, maps, first)
            &&& action matches Action::Insert { slot, .. } && slot == replacement.inactive()
            &&& control == Control::selecting(replacement.inactive())
            &&& holds_list(replacement, next, lines, start)
        },
        Stage::Activating => {
            &&& is_untouched(replacement, maps, first)
            &&& action == Action::Activate(Control::selecting(replacement.inactive()))
            &&& holds_list(replacement, maps, lines, start)
        },
        Stage::Abandoning => {
            &&& is_untouched(replacement, maps, first)
            &&& action == Action::Clear(replacement.inactive())
            &&& is_true_of(replacement.refused(), events, start)
        },
        Stage::Retiring => {
            &&& action == Action::Clear(replacement.active())
            &&& maps.control == Control::selecting(replacement.inactive())
            &&& holds_list(replacement, maps, lines, start)
        },
        Stage::Ended => match action {
            Action::Succeed => {
                &&& maps.control == Control::selecting(replacement.inactive())
                &&& holds_list(replacement, maps, lines, start)
            },
            Action::Fail(error) => {
                &&& is_untouched(replacement, maps, first)
                &&& is_true_of(
                    match error {
                        Some(error) => Some(error.fault()),
                        None => None,
                    },
                    events,
                    start,
                )
            },
            _ => false,
        },
    }
}

proof fn lemma_failure_is_known(events: Seq<Event>, event: Event)
    ensures
        event is Failed ==> some_failed(events.push(event)),
        some_failed(events) ==> some_failed(events.push(event)),
        lines_of(events.push(event)) == (match event {
            Event::Line(text) => lines_of(events).push(text@),
            _ => lines_of(events),
        }),
{
    let all = events.push(event);
    assert(all.drop_last() =~= events);
    if event is Failed {
        assert(all[events.len() as int] is Failed);
    }
    if some_failed(events) {
        let i = choose|i: int| 0 <= i < events.len() && #[trigger] events[i] is Failed;
        assert(all[i] is Failed);
    }
}

proof fn lemma_on_course(
    before: Replacement,
    action: Action,
    maps: Maps,
    events: Seq<Event>,
    event: Event,
    after: Replacement,
    next: Action,
    now: Maps,
    first: Maps,
    start: XdpReload,
)
    requires
        on_course(before, action, maps, events, first, start),
        goes_on(before, action, maps, event, after, next, now),
    ensures
        on_course(after, next, now, events.push(event), first, start),
{
    let lines = lines_of(events);
    lemma_failure_is_known(events, event);
    match (before.stage(), event) {
        (Stage::Clearing, _) => {
            assert(lines =~= Seq::empty());
            assert(before.reload().nets() =~= Seq::empty());
            assert(before.reload().staged() =~= Seq::empty());
        },
        (Stage::Reading, Event::Line(text)) => {
            assert(lines.push(text@).drop_last() =~= lines);
            let (old, new) = (before.reload(), after.reload());
            assert(now == maps);
            match next {
                Action::Insert { slot, prefixes } => {
                    assert(performed(now, next).slot(slot) == old.staged() + prefixes@);
                },
                _ => {},
            }
        },
        _ => {},
    }
}

proof fn lemma_course(course: Course, n: int)
    requires
        course.wf(),
        0 <= n <= course.events.len(),
    ensures
        on_course(
            course.replacements[n],
            course.actions[n],
            course.maps[n],
            course.events.take(n),
            course.maps[0],
            course.replacements[0].reload(),
        ),
    decreases n,
{
    if n == 0 {
        assert(course.events.take(0) =~= Seq::empty());
    } else {
        lemma_course(course, n - 1);
        let event = course.events[n - 1];
        assert(course.events.take(n - 1).push(event) =~= course.events.take(n));
        lemma_on_course(
            course.replacements[n - 1],
            course.actions[n - 1],
            course.maps[n - 1],
            course.events.take(n - 1),
            event,
            course.replacements[n],
            course.actions[n],
            course.maps[n],
            course.maps[0],
            course.replacements[0].reload(),
        );
    }
}

/// A replacement that succeeds has put exactly the list of the lines that were read into force:
/// every line could be read, and a frame is dropped exactly where its source is in the list.
pub proof fn law_success_puts_the_lines_into_force(course: Course, packet: Seq<u8>)
    requires
        course.wf(),
        course.actions.last() is Succeed,
        course.replacements.last().stage() == Stage::Ended,
    ensures
        crate::blocklist::reading(lines_of(course.events)).fault is None,
        course.maps.last().drops(packet) <==> crate::xdp::source_listed(
            packet,
            crate::blocklist::reading(lines_of(course.events)).nets,
        ),
{
    let n = course.events.len() as int;
    lemma_course(course, n);
    assert(course.events.take(n) =~= course.events);
    let last = course.replacements.last();
    let maps = course.maps.last();
    let nets = crate::blocklist::reading(lines_of(course.events)).nets;
    let slot = last.inactive();
    crate::xdp::law_activation_enforces_list(maps, slot, maps.slot(slot), nets, packet);
    assert(Seq::<AddressPrefix>::empty() + maps.slot(slot) =~= maps.slot(slot));
}

/// A replacement that fails, at whatever point, has changed nothing for any frame.
pub proof fn law_failure_leaves_the_filter_alone(course: Course, packet: Seq<u8>)
    requires
        course.wf(),
        course.actions.last() is Fail,
        course.replacements.last().stage() == Stage::Ended,
    ensures
        course.maps.last().drops(packet) == course.maps[0].drops(packet),
        course.maps.last().control == course.maps[0].control,
{
    let n = course.events.len() as int;
    lemma_course(course, n);
}

/// A replacement fails only for a reason, and gives it: something that was to be done failed, a line
/// could not be read, or the list has more prefixes of a family than fit.
pub proof fn law_failures_are_reasoned(course: Course, error: Option<StageError>)
    requires
        course.wf(),
        course.actions.last() == Action::Fail(error),
        course.replacements.last().stage() == Stage::Ended,
    ensures
        match error {
            None => some_failed(course.events),
            Some(StageError::Parse(error)) => crate::blocklist::reading(
                lines_of(course.events),
            ).fault == Some(error.fault()),
            Some(StageError::Capacity { v6, max_entries }) => {
                &&& max_entries == course.replacements[0].reload().max(v6)
                &&& forall|all: Seq<AddressPrefix>| #[trigger]
                    crate::xdp::stages(
                        all,
                        crate::layout::spans(
                            crate::blocklist::reading(lines_of(course.events)).nets,
                        ),
                    ) ==> crate::xdp::family_count(all, v6) > max_entries
            },
        },
{
    let n = course.events.len() as int;
    lemma_course(course, n);
    assert(course.events.take(n) =~= course.events);
    match error {
        Some(StageError::Capacity { v6, max_entries }) => {
            let spans = crate::layout::spans(crate::blocklist::reading(lines_of(course.events)).nets);
            assert forall|all: Seq<AddressPrefix>| #[trigger]
                crate::xdp::stages(all, spans) implies crate::xdp::family_count(all, v6)
                > max_entries by {
                if crate::xdp::too_large(spans, max_entries, v6) {
                    crate::xdp::law_refused_lists_do_not_fit(all, spans, max_entries, v6);
                } else {
                    let limit = choose|limit: nat| #[trigger]
                        crate::xdp::too_large(
                            crate::layout::flat(crate::layout::settled(spans, limit).done),
                            max_entries,
                            v6,
                        );
                    let part = crate::layout::flat(crate::layout::settled(spans, limit).done);
                    crate::layout::law_settled_chunks_come_first(spans, limit);
                    let rest = spans.skip(part.len() as int);
                    crate::xdp::lemma_too_large_extends(part, rest, max_entries, v6);
                    assert(part + rest =~= spans);
                    crate::xdp::law_refused_lists_do_not_fit(all, spans, max_entries, v6);
                }
            }
        },
        _ => {},
    }
}

/// After a replacement that succeeded, an IPv4 frame is dropped exactly where an entry of the list
/// holds the source in its header, whatever tags stand before the header and whatever follows it.
pub proof fn law_success_filters_ipv4_frames(
    course: Course,
    addresses: Seq<u8>,
    tags: Seq<u8>,
    header: Seq<u8>,
    payload: Seq<u8>,
)
    requires
        course.wf(),
        course.actions.last() is Succeed,
        course.replacements.last().stage() == Stage::Ended,
        addresses.len() == 12,
        crate::packet::are_tags(tags),
        header.len() == 20,
        0x45 <= header[0] <= 0x4f,
    ensures
        course.maps.last().drops(
            crate::packet::frame(addresses, tags, 0x08, 0x00, header + payload),
        ) <==> crate::request::list_holds(
            crate::blocklist::reading(lines_of(course.events)).nets,
            false,
            crate::packet::number4(header, 12),
        ),
{
    let packet = crate::packet::frame(addresses, tags, 0x08, 0x00, header + payload);
    law_success_puts_the_lines_into_force(course, packet);
    crate::packet::law_ipv4_packets_have_their_source(addresses, tags, header, payload);
    crate::request::lemma_list_holds(
        crate::blocklist::reading(lines_of(course.events)).nets,
        false,
        crate::packet::number4(header, 12),
    );
}

/// After a replacement that succeeded, an IPv6 frame is dropped exactly where an entry of the list
/// holds the source in its header, whatever tags stand before the header and whatever follows it.
pub proof fn law_success_filters_ipv6_frames(
    course: Course,
    addresses: Seq<u8>,
    tags: Seq<u8>,
    header: Seq<u8>,
    payload: Seq<u8>,
)
    requires
        course.wf(),
        course.actions.last() is Succeed,
        course.replacements.last().stage() == Stage::Ended,
        addresses.len() == 12,
        crate::packet::are_tags(tags),
        header.len() == 40,
        0x60 <= header[0] <= 0x6f,
    ensures
        course.maps.last().drops(
            crate::packet::frame(addresses, tags, 0x86, 0xdd, header + payload),
        ) <==> crate::request::list_holds(
            crate::blocklist::reading(lines_of(course.events)).nets,
            true,
            crate::packet::number16(header, 8),
        ),
{
    let packet = crate::packet::frame(addresses, tags, 0x86, 0xdd, header + payload);
    law_success_puts_the_lines_into_force(course, packet);
    crate::packet::law_ipv6_packets_have_their_source(addresses, tags, header, payload);
    crate::request::lemma_list_holds(
        crate::blocklist::reading(lines_of(course.events)).nets,
        true,
        crate::packet::number16(header, 8),
    );
}

/// A replacement begins on maps that select a slot: with the tables of the other one to be emptied,
/// and with room for as many prefixes as was given.
pub proof fn law_replacements_begin_with_the_other_slot(
    control: Control,
    batch_elements: usize,
    ipv4_max: u32,
    ipv6_max: u32,
    r: (Replacement, Action),
    maps: Maps,
)
    requires
        control.compatible(),
        call_ensures(Replacement::new, (control, batch_elements, ipv4_max, ipv6_max), r),
        maps.control == control,
    ensures
        begins(r.0, r.1, maps),
        control.active_slot == 0 ==> r.1 == Action::Clear(1),
        control.active_slot == 1 ==> r.1 == Action::Clear(0),
        r.0.reload().max(false) == ipv4_max,
        r.0.reload().max(true) == ipv6_max,
{
}

/// A replacement whose list is read to its end and fits succeeds, as long as nothing that is to be
/// done fails.
pub proof fn law_readable_lists_succeed(course: Course)
    requires
        course.wf(),
        course.replacements.last().stage() == Stage::Ended,
        !some_failed(course.events),
        crate::blocklist::reading(lines_of(course.events)).fault is None,
        exists|all: Seq<AddressPrefix>| #[trigger]
            crate::xdp::stages(
                all,
                crate::layout::spans(crate::blocklist::reading(lines_of(course.events)).nets),
            ) && crate::xdp::family_count(all, false) <= course.replacements[0].reload().max(false)
                && crate::xdp::family_count(all, true) <= course.replacements[0].reload().max(true),
    ensures
        course.actions.last() is Succeed,
{
    let n = course.events.len() as int;
    lemma_course(course, n);
    assert(course.events.take(n) =~= course.events);
    match course.actions.last() {
        Action::Fail(error) => {
            law_failures_are_reasoned(course, error);
            let all = choose|all: Seq<AddressPrefix>| #[trigger]
                crate::xdp::stages(
                    all,
                    crate::layout::spans(crate::blocklist::reading(lines_of(course.events)).nets),
                ) && crate::xdp::family_count(all, false) <= course.replacements[0].reload().max(
                    false,
                ) && crate::xdp::family_count(all, true) <= course.replacements[0].reload().max(
                    true,
                );
            match error {
                Some(StageError::Capacity { v6, max_entries }) => {
                    assert(crate::xdp::family_count(all, v6) > max_entries);
                },
                _ => {},
            }
        },
        _ => {},
    }
}

} // verus!
