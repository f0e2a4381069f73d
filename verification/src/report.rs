//! Report model: the ordered sequence of raw per-element report entries.
//!
//! Each entry is either a physical ("b2") or a virtual ("b3") element and
//! carries its escaped-HTML description string. The outer XML tokenizer that
//! produces these entries is an external collaborator; this model holds only
//! what the decoding logic reads.

use vstd::prelude::*;

verus! {

/// One raw report entry: a physical or a virtual element's description.
#[derive(Debug)]
pub enum VkbXmlButton {
    B2(String),
    B3(String),
}

/// Mathematical view of [`VkbXmlButton`].
pub enum EntryView {
    B2(Seq<char>),
    B3(Seq<char>),
}

impl View for VkbXmlButton {
    type V = EntryView;

    open spec fn view(&self) -> EntryView {
        match self {
            VkbXmlButton::B2(d) => EntryView::B2(d@),
            VkbXmlButton::B3(d) => EntryView::B3(d@),
        }
    }
}

impl VkbXmlButton {
    /// A copy of this entry, equal at the level of views.
    pub fn duplicate(&self) -> (r: Self)
        ensures
            r@ == self@,
    {
        match self {
            VkbXmlButton::B2(d) => VkbXmlButton::B2(d.clone()),
            VkbXmlButton::B3(d) => VkbXmlButton::B3(d.clone()),
        }
    }
}

/// The raw report: its physical and virtual entries in document order.
#[derive(Debug)]
pub struct VkbReport {
    entries: Vec<VkbXmlButton>,
}

impl View for VkbReport {
    type V = Seq<EntryView>;

    closed spec fn view(&self) -> Seq<EntryView> {
        Seq::new(self.entries@.len(), |i: int| self.entries@[i]@)
    }
}

impl VkbReport {
    /// Wraps the ordered entry list handed back by the report tokenizer.
    pub fn new(entries: Vec<VkbXmlButton>) -> (r: Self)
        ensures
            r@ == Seq::new(entries@.len(), |i: int| entries@[i]@),
    {
        Self { entries }
    }

    /// The physical and virtual entries of the report, in document order.
    pub fn get_all_buttons(&self) -> (r: Vec<VkbXmlButton>)
        ensures
            r@.len() == self@.len(),
            forall|i: int| 0 <= i < r@.len() ==> r@[i]@ == self@[i],
    {
        let mut r: Vec<VkbXmlButton> = Vec::new();
        let n = self.entries.len();
        let mut i: usize = 0;
        while i < n
            invariant
                self.entries@.len() == n,
                self@ == Seq::new(self.entries@.len(), |k: int| self.entries@[k]@),
                0 <= i <= n,
                r@.len() == i,
                forall|k: int| 0 <= k < i ==> r@[k]@ == self@[k],
            decreases n - i,
        {
            r.push(self.entries[i].duplicate());
            i += 1;
        }
        r
    }
}

} // verus!
