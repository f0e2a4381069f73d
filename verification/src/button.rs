//! Physical and virtual (logical) button data types.
//!
//! A physical button is a labeled control on the device, identified by a fixed
//! line number; a virtual button is the numeric identifier actually delivered
//! to host software.

use vstd::prelude::*;

verus! {

/// How a physical button splits one control into several virtual identifiers
/// by press duration.
#[derive(PartialEq, Eq, Debug, Clone, Copy)]
pub enum TempoKind {
    /// Short press and long press.
    Tempo2 { button_id_short: u8, button_id_long: u8 },
    /// Short press, long press and double press.
    Tempo3 { button_id_short: u8, button_id_long: u8, button_id_double: u8 },
}

/// Which alternate virtual identifiers a button produces when pressed
/// together with the first and/or second shift modifier.
#[derive(PartialEq, Eq, Debug, Clone, Copy)]
pub enum ShiftKind {
    Shift1 { button_id_shift1: u8 },
    Shift2 { button_id_shift2: u8 },
    Shift12 { button_id_shift1: u8, button_id_shift2: u8 },
}

/// The classification of one physical button.
#[derive(PartialEq, Eq, Debug, Clone)]
pub enum PhysicalButtonKind {
    /// The standard button with momentary action, possibly shift-remapped.
    Momentary { shift: Option<ShiftKind> },
    /// The encoder wheel; its companion virtual ids are not recorded.
    Encoder,
    /// A button whose virtual id depends on press duration.
    Tempo(TempoKind),
    /// The button that acts as the first shift modifier itself.
    Shift1,
    /// The button that acts as the second shift modifier itself.
    Shift2,
    /// One direction of a point-of-view switch.
    Pov { direction: String },
    /// A line with no defined function.
    Undefined,
    /// The ministick push that switches microstick modes.
    MicrostickModeSwitch,
}

/// Mathematical view of [`PhysicalButtonKind`]: the label of a
/// point-of-view direction is a character sequence.
pub enum PhysicalButtonKindView {
    Momentary { shift: Option<ShiftKind> },
    Encoder,
    Tempo(TempoKind),
    Shift1,
    Shift2,
    Pov { direction: Seq<char> },
    Undefined,
    MicrostickModeSwitch,
}

impl View for PhysicalButtonKind {
    type V = PhysicalButtonKindView;

    open spec fn view(&self) -> PhysicalButtonKindView {
        match self {
            PhysicalButtonKind::Momentary { shift } => PhysicalButtonKindView::Momentary {
                shift: *shift,
            },
            PhysicalButtonKind::Encoder => PhysicalButtonKindView::Encoder,
            PhysicalButtonKind::Tempo(t) => PhysicalButtonKindView::Tempo(*t),
            PhysicalButtonKind::Shift1 => PhysicalButtonKindView::Shift1,
            PhysicalButtonKind::Shift2 => PhysicalButtonKindView::Shift2,
            PhysicalButtonKind::Pov { direction } => PhysicalButtonKindView::Pov {
                direction: direction@,
            },
            PhysicalButtonKind::Undefined => PhysicalButtonKindView::Undefined,
            PhysicalButtonKind::MicrostickModeSwitch => PhysicalButtonKindView::MicrostickModeSwitch,
        }
    }
}

impl PhysicalButtonKind {
    /// A copy of this kind, equal at the level of views.
    pub fn duplicate(&self) -> (r: Self)
        ensures
            r@ == self@,
    {
        match self {
            PhysicalButtonKind::Momentary { shift } => PhysicalButtonKind::Momentary {
                shift: *shift,
            },
            PhysicalButtonKind::Encoder => PhysicalButtonKind::Encoder,
            PhysicalButtonKind::Tempo(t) => PhysicalButtonKind::Tempo(*t),
            PhysicalButtonKind::Shift1 => PhysicalButtonKind::Shift1,
            PhysicalButtonKind::Shift2 => PhysicalButtonKind::Shift2,
            PhysicalButtonKind::Pov { direction } => PhysicalButtonKind::Pov {
                direction: direction.clone(),
            },
            PhysicalButtonKind::Undefined => PhysicalButtonKind::Undefined,
            PhysicalButtonKind::MicrostickModeSwitch => PhysicalButtonKind::MicrostickModeSwitch,
        }
    }
}

/// How a virtual button is reached from its physical parent by press
/// duration.
#[derive(PartialEq, Eq, Debug, Clone, Copy)]
pub enum VirtualTempoKind {
    Short,
    Long,
    Double,
}

/// Which shift modifier must be held to reach a virtual button.
#[derive(PartialEq, Eq, Debug, Clone, Copy)]
pub enum VirtualShiftKind {
    Shift1,
    Shift2,
}

/// How a virtual identifier is reached from its physical parent.
#[derive(PartialEq, Eq, Debug, Clone, Copy)]
pub enum VirtualButtonKind {
    /// Reached by a plain press, possibly with a shift modifier held.
    Momentary(Option<VirtualShiftKind>),
    /// Reached by a press of the recorded duration.
    Tempo(VirtualTempoKind),
}

/// A virtual (logical) button: the identifier the game observes, and how it
/// is reached from its physical parent.
#[derive(PartialEq, Eq, Debug, Clone, Copy)]
pub struct VirtualButton {
    pub id: u8,
    pub kind: VirtualButtonKind,
}

impl VirtualButton {
    pub fn get_id(&self) -> (r: &u8)
        ensures
            r == self.id,
    {
        &self.id
    }
}

/// Marks a physical button whose sole role is acting as a shift modifier;
/// such a button is looked up by its label.
#[derive(PartialEq, Eq, Debug, Clone, Copy)]
pub enum SpecialButtonKind {
    Shift1,
    Shift2,
}

/// The result of a label lookup: either the virtual buttons a physical
/// button produces, or the identity of a pure modifier button.
#[derive(PartialEq, Eq, Debug, Clone, Copy)]
pub enum VirtualButtonOrSpecial {
    Virtual(VirtualButton),
    Special(SpecialButtonKind),
}

/// A physical button: a fixed line number, its classification, the short
/// label printed on the device, the raw secondary description kept for
/// diagnostics, and an externally supplied label.
#[derive(PartialEq, Debug)]
pub struct PhysicalButton {
    id: u8,
    kind: PhysicalButtonKind,
    info: String,
    extended_desc: String,
    user_desc: String,
}

/// Mathematical view of [`PhysicalButton`].
pub struct PhysicalButtonView {
    pub id: u8,
    pub kind: PhysicalButtonKindView,
    pub info: Seq<char>,
    pub extended_desc: Seq<char>,
    pub user_desc: Seq<char>,
}

impl View for PhysicalButton {
    type V = PhysicalButtonView;

    closed spec fn view(&self) -> PhysicalButtonView {
        PhysicalButtonView {
            id: self.id,
            kind: self.kind@,
            info: self.info@,
            extended_desc: self.extended_desc@,
            user_desc: self.user_desc@,
        }
    }
}

impl PhysicalButton {
    pub fn new(id: u8, kind: PhysicalButtonKind, info: String, extended_desc: String,
        user_desc: String) -> (r: Self)
        ensures
            r@ == (PhysicalButtonView {
                id,
                kind: kind@,
                info: info@,
                extended_desc: extended_desc@,
                user_desc: user_desc@,
            }),
    {
        Self { id, kind, info, extended_desc, user_desc }
    }

    pub fn get_id(&self) -> (r: &u8)
        ensures
            r == self@.id,
    {
        &self.id
    }

    pub fn get_info(&self) -> (r: &String)
        ensures
            r@ == self@.info,
    {
        &self.info
    }

    pub fn get_user_desc(&self) -> (r: &String)
        ensures
            r@ == self@.user_desc,
    {
        &self.user_desc
    }

    pub fn get_kind(&self) -> (r: &PhysicalButtonKind)
        ensures
            r@ == self@.kind,
    {
        &self.kind
    }

    pub fn set_user_desc(&mut self, new_user_desc: &str)
        ensures
            final(self)@ == (PhysicalButtonView { user_desc: new_user_desc@, ..old(self)@ }),
    {
        self.user_desc = new_user_desc.to_owned();
    }

    /// A copy of this button, equal at the level of views.
    pub fn duplicate(&self) -> (r: Self)
        ensures
            r@ == self@,
    {
        Self {
            id: self.id,
            kind: self.kind.duplicate(),
            info: self.info.clone(),
            extended_desc: self.extended_desc.clone(),
            user_desc: self.user_desc.clone(),
        }
    }
}

} // verus!
