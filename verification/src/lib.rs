//! Decodes the semi-structured button descriptions exported by a programmable
//! joystick's configuration tool and rebuilds the graph that links each
//! physical control to the virtual button identifiers a game observes.
//!
//! The outer XML tokenizer, CSV loading and all rendering live outside this
//! library; it works on plain description strings and returns plain values.

use vstd::prelude::*;

pub mod button;
pub mod classify;
pub mod desc;
pub mod keybind;
pub mod mapping;
pub mod report;
pub mod text;

pub use button::{
    PhysicalButton, PhysicalButtonKind, ShiftKind, SpecialButtonKind, TempoKind, VirtualButton,
    VirtualButtonKind, VirtualButtonOrSpecial, VirtualShiftKind, VirtualTempoKind,
};
pub use classify::{
    ButtonIdAndInfo, extract_button_id_from_inner_html, parse_b2_button_desc_xml_escaped,
    parse_b3_button_desc_xml_escaped,
};
pub use keybind::GameButtonsMapping;
pub use mapping::{BuildDiagnostic, JoystickButtonsMapping};
pub use report::{VkbReport, VkbXmlButton};

verus! {

/// Errors surfaced by the report decoder and the mapping queries.
///
/// All failures are value-returned; no verified function in this crate panics.
#[derive(Debug, Clone, PartialEq, Eq)]
pub enum VkbReportError {
    /// A description string matches none of the known classification rules.
    UnrecognizedDescription { desc: String },
    /// A numeric substring could not be parsed as a button identifier.
    MalformedIdentifier { text: String },
    /// A virtual entry appeared before any physical entry.
    MissingParent,
    /// A virtual id does not trace back to any sub-id declared by its parent.
    InconsistentParentLink { virtual_id: u8, parent_id: u8 },
    /// No physical button carries the given label.
    ButtonNotFound { info_or_user_desc: String },
    /// A physical button is referenced as a parent but owns no children.
    MissingChildren { physical_id: u8 },
    /// The user-description list is shorter than a physical button id requires.
    MissingRecord { physical_id: u8 },
    /// A user-description record lacks the label column.
    MissingColumn { physical_id: u8 },
}

} // verus!
