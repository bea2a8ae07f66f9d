//! The control map that says which of the two table slots is in force.
use crate::text::decimal;
use vstd::prelude::*;
use vstd::string::*;

verus! {

/// The version of the map layout.
pub const LAYOUT_VERSION: u32 = 1;

/// The number of slots per address family.
pub const SLOT_COUNT: u32 = 2;

/// What the control map holds. A new map is all zero.
#[derive(Clone, Copy, Debug, PartialEq, Eq, Structural)]
pub struct Control {
    pub layout_version: u32,
    pub active_slot: u32,
}

impl Default for Control {
    fn default() -> (control: Self)
        ensures
            control.layout_version == 0,
            control.active_slot == 0,
    {
        Control { layout_version: 0, active_slot: 0 }
    }
}

impl Control {
    /// The map has the current layout and selects one of the slots.
    pub open spec fn compatible(self) -> bool {
        self.layout_version == LAYOUT_VERSION && self.active_slot < SLOT_COUNT
    }

    pub fn is_compatible(self) -> (r: bool)
        ensures
            r == self.compatible(),
    {
        self.layout_version == LAYOUT_VERSION && self.active_slot < SLOT_COUNT
    }

    /// The control value that selects a slot.
    pub open spec fn selecting(slot: u32) -> Control {
        Control { layout_version: LAYOUT_VERSION, active_slot: slot }
    }
}

/// What to do with the control map at startup.
#[derive(Clone, Copy, Debug, PartialEq, Eq, Structural)]
pub enum Startup {
    /// The map is new: write this.
    Initialize(Control),
    /// The map is in use already: leave it.
    Keep(Control),
}

/// What to do with the control map at startup; nothing with one of another layout.
pub fn startup(current: Control) -> (r: Option<Startup>)
    ensures
        r == (if current.layout_version == 0 {
            Some(Startup::Initialize(Control::selecting(0)))
        } else if current.compatible() {
            Some(Startup::Keep(current))
        } else {
            None
        }),
{
    if current.layout_version == 0 {
        Some(
            Startup::Initialize(Control { layout_version: LAYOUT_VERSION, active_slot: 0 }),
        )
    } else if current.is_compatible() {
        Some(Startup::Keep(current))
    } else {
        None
    }
}

/// The message about a control map of another layout.
pub fn incompatible_message(pin_path: &str, current: Control) -> (r: String)
    ensures
        r@ == pin_path@ + " contains an incompatible XDP map layout (version="@
            + crate::text::decimal_digits(current.layout_version as nat) + ", active_slot="@
            + crate::text::decimal_digits(current.active_slot as nat) + ")"@,
{
    String::from_str(pin_path).concat(" contains an incompatible XDP map layout (version=").concat(
        decimal(current.layout_version as u64).as_str(),
    ).concat(", active_slot=").concat(decimal(current.active_slot as u64).as_str()).concat(")")
}

/// Why the pinned state may not be removed.
#[derive(Clone, Copy, Debug, PartialEq, Eq, Structural)]
pub enum CleanupRefusal {
    /// There is no control map.
    NoState,
    /// The control map has another layout.
    Incompatible,
}

/// Whether the pinned state may be removed: only where its control map is there and has the
/// current layout.
pub fn may_clean(current: Option<Control>) -> (r: Result<(), CleanupRefusal>)
    ensures
        match current {
            None => r == Err::<(), CleanupRefusal>(CleanupRefusal::NoState),
            Some(control) => if control.compatible() {
                r is Ok
            } else {
                r == Err::<(), CleanupRefusal>(CleanupRefusal::Incompatible)
            },
        },
{
    match current {
        None => Err(CleanupRefusal::NoState),
        Some(control) => {
            if control.is_compatible() {
                Ok(())
            } else {
                Err(CleanupRefusal::Incompatible)
            }
        },
    }
}

impl CleanupRefusal {
    pub open spec fn text(self, pin_path: Seq<char>) -> Seq<char> {
        match self {
            CleanupRefusal::NoState => "no cidrwall XDP state exists at "@ + pin_path,
            CleanupRefusal::Incompatible => "refusing to clean an incompatible XDP layout at "@
                + pin_path,
        }
    }

    pub fn message(self, pin_path: &str) -> (r: String)
        ensures
            r@ == self.text(pin_path@),
    {
        match self {
            CleanupRefusal::NoState => String::from_str("no cidrwall XDP state exists at ").concat(
                pin_path,
            ),
            CleanupRefusal::Incompatible => String::from_str(
                "refusing to clean an incompatible XDP layout at ",
            ).concat(pin_path),
        }
    }
}

/// A map that is set up at startup selects the first slot, and from then on is kept as it is: a
/// second startup changes nothing.
pub proof fn law_startup_settles_the_map(
    current: Control,
    first: Option<Startup>,
    control: Control,
    second: Option<Startup>,
)
    requires
        call_ensures(startup, (current,), first),
        first == Some(Startup::Initialize(control)) || first == Some(Startup::Keep(control)),
        call_ensures(startup, (control,), second),
    ensures
        second == Some(Startup::Keep(control)),
        control.layout_version == 1,
        control.active_slot == 0 || control.active_slot == 1,
        first is Some && first->0 is Initialize ==> control.active_slot == 0
            && current.layout_version == 0,
        first is Some && first->0 is Keep ==> control == current,
{
}

/// A new map is set up, one of this layout that selects one of its two slots is kept, whichever slot
/// that is, and any other is refused.
pub proof fn law_startup_refuses_other_layouts(current: Control, r: Option<Startup>)
    requires
        call_ensures(startup, (current,), r),
    ensures
        r is None <==> current.layout_version > 1 || current.layout_version == 1
            && current.active_slot > 1,
        current.layout_version == 0 ==> r is Some && r->0 is Initialize,
{
}

/// What is removed is what startup would have kept: pinned state without a control map, with a new
/// one, or with one of another layout stays.
pub proof fn law_only_kept_state_is_cleaned(
    current: Control,
    kept: Option<Startup>,
    r: Result<(), CleanupRefusal>,
    missing: Result<(), CleanupRefusal>,
)
    requires
        call_ensures(startup, (current,), kept),
        call_ensures(may_clean, (Some(current),), r),
        call_ensures(may_clean, (None,), missing),
    ensures
        r is Ok <==> kept == Some(Startup::Keep(current)),
        r is Ok <==> current.layout_version == 1 && current.active_slot < 2,
        r is Err ==> r->Err_0 is Incompatible,
        missing is Err && missing->Err_0 is NoState,
{
}

/// A control value that selects a slot is compatible for the two slots there are, and for no others.
pub proof fn law_selected_slots_are_compatible(slot: u32)
    ensures
        Control::selecting(slot).active_slot == slot,
        Control::selecting(slot).compatible() <==> slot == 0 || slot == 1,
{
}

} // verus!
