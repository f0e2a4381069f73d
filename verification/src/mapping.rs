//! Button graph builder and query service.
//!
//! The builder consumes the ordered entry sequence, tracks the current
//! physical parent, classifies each entry and builds two inverse association
//! lists (virtual id to parent physical buttons, physical id to child
//! virtual buttons) plus a side table of pure modifier buttons keyed by
//! label. Duplicate assignments are recorded as diagnostics, never as
//! errors.

use vstd::prelude::*;

use crate::VkbReportError;
use crate::button::{
    PhysicalButton, PhysicalButtonKind, PhysicalButtonKindView, PhysicalButtonView,
    SpecialButtonKind, VirtualButton, VirtualButtonOrSpecial,
};
use crate::classify::{
    DescError, b3_ids_spec, parse_b2_button_desc_xml_escaped, parse_b2_spec,
    parse_b3_button_desc_xml_escaped, virtual_kind_spec,
};
use crate::report::{EntryView, VkbReport, VkbXmlButton};
use crate::text::{ascii_bytes, chars_of};
use vstd::string::StringSliceAdditionalSpecFns;

verus! {

/// A recoverable condition noted while building the graph: wasted
/// configuration, not invalid data.
#[derive(PartialEq, Eq, Debug, Clone, Copy)]
pub enum BuildDiagnostic {
    /// A virtual id was reached from more than one physical origin.
    DuplicateVirtualAssignment { virtual_id: u8 },
    /// A physical button registered more than one child virtual button.
    RepeatedPhysicalParent { physical_id: u8 },
    /// A virtual id equal to its parent's line number; valid, only noted.
    VirtualIdEqualsParent { id: u8 },
}

/// Position of the first entry with key `k` in an association list.
pub open spec fn key_idx<V>(l: Seq<(u8, V)>, k: u8) -> Option<int>
    decreases l.len(),
{
    if l.len() == 0 {
        None
    } else if l[0].0 == k {
        Some(0)
    } else {
        match key_idx(l.drop_first(), k) {
            Some(i) => Some(i + 1),
            None => None,
        }
    }
}

/// `key_idx` returns exactly the first position that carries the key.
pub proof fn lemma_key_idx<V>(l: Seq<(u8, V)>, k: u8)
    ensures
        match key_idx(l, k) {
            Some(i) => 0 <= i < l.len() && l[i].0 == k && forall|j: int|
                0 <= j < i ==> (#[trigger] l[j]).0 != k,
            None => forall|j: int| 0 <= j < l.len() ==> (#[trigger] l[j]).0 != k,
        },
    decreases l.len(),
{
    if l.len() > 0 && l[0].0 != k {
        let d = l.drop_first();
        lemma_key_idx(d, k);
        assert(forall|j: int| 0 <= j < d.len() ==> #[trigger] d[j] == l[j + 1]);
        match key_idx(d, k) {
            Some(i) => {
                assert(l[i + 1].0 == k);
                assert forall|j: int| 0 <= j < i + 1 implies (#[trigger] l[j]).0 != k by {
                    if j > 0 {
                        assert(d[j - 1] == l[j]);
                    }
                }
            },
            None => {
                assert forall|j: int| 0 <= j < l.len() implies (#[trigger] l[j]).0 != k by {
                    if j > 0 {
                        assert(d[j - 1] == l[j]);
                    }
                }
            },
        }
    }
}

/// The value stored under key `k`, if any.
pub open spec fn key_lookup<V>(l: Seq<(u8, V)>, k: u8) -> Option<V> {
    match key_idx(l, k) {
        Some(i) => Some(l[i].1),
        None => None,
    }
}

/// Position of the first entry with label `k` in the modifier table.
pub open spec fn label_idx(l: Seq<(Seq<char>, SpecialButtonKind)>, k: Seq<char>) -> Option<int>
    decreases l.len(),
{
    if l.len() == 0 {
        None
    } else if l[0].0 == k {
        Some(0)
    } else {
        match label_idx(l.drop_first(), k) {
            Some(i) => Some(i + 1),
            None => None,
        }
    }
}

/// `label_idx` returns exactly the first position that carries the label.
pub proof fn lemma_label_idx(l: Seq<(Seq<char>, SpecialButtonKind)>, k: Seq<char>)
    ensures
        match label_idx(l, k) {
            Some(i) => 0 <= i < l.len() && l[i].0 == k && forall|j: int|
                0 <= j < i ==> (#[trigger] l[j]).0 != k,
            None => forall|j: int| 0 <= j < l.len() ==> (#[trigger] l[j]).0 != k,
        },
    decreases l.len(),
{
    if l.len() > 0 && l[0].0 != k {
        let d = l.drop_first();
        lemma_label_idx(d, k);
        assert(forall|j: int| 0 <= j < d.len() ==> #[trigger] d[j] == l[j + 1]);
        match label_idx(d, k) {
            Some(i) => {
                assert(l[i + 1].0 == k);
                assert forall|j: int| 0 <= j < i + 1 implies (#[trigger] l[j]).0 != k by {
                    if j > 0 {
                        assert(d[j - 1] == l[j]);
                    }
                }
            },
            None => {
                assert forall|j: int| 0 <= j < l.len() implies (#[trigger] l[j]).0 != k by {
                    if j > 0 {
                        assert(d[j - 1] == l[j]);
                    }
                }
            },
        }
    }
}

/// The modifier kind stored under a label, if any.
pub open spec fn label_lookup(l: Seq<(Seq<char>, SpecialButtonKind)>, k: Seq<char>) -> Option<
    SpecialButtonKind,
> {
    match label_idx(l, k) {
        Some(i) => Some(l[i].1),
        None => None,
    }
}

/// The modifier table with `k` bound to `v`: overwritten in place when the
/// label exists, appended otherwise.
pub open spec fn label_upsert(
    l: Seq<(Seq<char>, SpecialButtonKind)>,
    k: Seq<char>,
    v: SpecialButtonKind,
) -> Seq<(Seq<char>, SpecialButtonKind)> {
    match label_idx(l, k) {
        Some(i) => l.update(i, (k, v)),
        None => l.push((k, v)),
    }
}

/// The state carried through the build fold, at the level of the model.
pub struct BuildState {
    pub v2p: Seq<(u8, Seq<PhysicalButtonView>)>,
    pub p2c: Seq<(u8, Seq<VirtualButton>)>,
    pub specials: Seq<(Seq<char>, SpecialButtonKind)>,
    pub parent: Option<PhysicalButtonView>,
    pub diags: Seq<BuildDiagnostic>,
}

/// How the build fails, at the level of the model.
pub enum BuildErr {
    Unrecognized(Seq<char>),
    Malformed(Seq<u8>),
    MissingParent,
    Inconsistent { virtual_id: u8, parent_id: u8 },
}

/// The empty build state: no entries seen, no parent set.
pub open spec fn initial_state() -> BuildState {
    BuildState { v2p: seq![], p2c: seq![], specials: seq![], parent: None, diags: seq![] }
}

/// One physical entry: classify it, register a pure modifier button under
/// its label, and make it the current parent.
pub open spec fn step_b2(st: BuildState, desc: Seq<char>) -> Result<BuildState, BuildErr> {
    if !vstd::utf8::is_ascii_chars(desc) {
        Err(BuildErr::Unrecognized(desc))
    } else {
        match parse_b2_spec(ascii_bytes(desc)) {
            Err(DescError::Unrecognized) => Err(BuildErr::Unrecognized(desc)),
            Err(DescError::Malformed(t)) => Err(BuildErr::Malformed(t)),
            Ok(m) => {
                let b = PhysicalButtonView {
                    id: m.id,
                    kind: m.kind,
                    info: chars_of(m.info),
                    extended_desc: chars_of(m.extended_desc),
                    user_desc: Seq::<char>::empty(),
                };
                let specials = if m.kind is Shift1 {
                    label_upsert(st.specials, b.info, SpecialButtonKind::Shift1)
                } else if m.kind is Shift2 {
                    label_upsert(st.specials, b.info, SpecialButtonKind::Shift2)
                } else {
                    st.specials
                };
                Ok(BuildState { specials, parent: Some(b), ..st })
            },
        }
    }
}

/// One virtual entry: parse its ids, trace them back to the current parent,
/// and append the result to both association lists, noting duplicates.
pub open spec fn step_b3(st: BuildState, desc: Seq<char>) -> Result<BuildState, BuildErr> {
    match st.parent {
        None => Err(BuildErr::MissingParent),
        Some(parent) => {
            if !vstd::utf8::is_ascii_chars(desc) {
                Err(BuildErr::Unrecognized(desc))
            } else {
                match b3_ids_spec(ascii_bytes(desc)) {
                    Err(DescError::Unrecognized) => Err(BuildErr::Unrecognized(desc)),
                    Err(DescError::Malformed(t)) => Err(BuildErr::Malformed(t)),
                    Ok(ids) => {
                        match virtual_kind_spec(parent.kind, parent.id, ids.1, ids.0) {
                            None => Err(
                                BuildErr::Inconsistent { virtual_id: ids.1, parent_id: parent.id },
                            ),
                            Some(k) => {
                                let vb = VirtualButton { id: ids.1, kind: k };
                                let dup_v = key_idx(st.v2p, vb.id) is Some;
                                let v2p = match key_idx(st.v2p, vb.id) {
                                    Some(i) => st.v2p.update(
                                        i,
                                        (vb.id, st.v2p[i].1.push(parent)),
                                    ),
                                    None => st.v2p.push((vb.id, seq![parent])),
                                };
                                let dup_p = key_idx(st.p2c, parent.id) is Some;
                                let p2c = match key_idx(st.p2c, parent.id) {
                                    Some(i) => st.p2c.update(
                                        i,
                                        (parent.id, st.p2c[i].1.push(vb)),
                                    ),
                                    None => st.p2c.push((parent.id, seq![vb])),
                                };
                                let diags = st.diags + (if dup_v {
                                    seq![
                                        BuildDiagnostic::DuplicateVirtualAssignment {
                                            virtual_id: vb.id,
                                        },
                                    ]
                                } else {
                                    seq![]
                                }) + (if dup_p {
                                    seq![
                                        BuildDiagnostic::RepeatedPhysicalParent {
                                            physical_id: parent.id,
                                        },
                                    ]
                                } else {
                                    seq![]
                                }) + (if parent.id == vb.id {
                                    seq![BuildDiagnostic::VirtualIdEqualsParent { id: vb.id }]
                                } else {
                                    seq![]
                                });
                                Ok(BuildState { v2p, p2c, diags, ..st })
                            },
                        }
                    },
                }
            }
        },
    }
}

/// One entry, physical or virtual.
pub open spec fn apply_step(st: BuildState, e: EntryView) -> Result<BuildState, BuildErr> {
    match e {
        EntryView::B2(d) => step_b2(st, d),
        EntryView::B3(d) => step_b3(st, d),
    }
}

/// The fold of the build over an entry sequence, from a given state.
pub open spec fn build_from(st: BuildState, entries: Seq<EntryView>) -> Result<
    BuildState,
    BuildErr,
>
    decreases entries.len(),
{
    if entries.len() == 0 {
        Ok(st)
    } else {
        match apply_step(st, entries[0]) {
            Err(e) => Err(e),
            Ok(s2) => build_from(s2, entries.drop_first()),
        }
    }
}

/// The graph a report denotes, at the level of the model.
pub open spec fn build_model(entries: Seq<EntryView>) -> Result<BuildState, BuildErr> {
    build_from(initial_state(), entries)
}

/// Folding one more entry at the back applies one more step.
pub proof fn lemma_build_push(st: BuildState, s: Seq<EntryView>, x: EntryView)
    ensures
        build_from(st, s.push(x)) == (match build_from(st, s) {
            Ok(m) => apply_step(m, x),
            Err(e) => Err::<BuildState, BuildErr>(e),
        }),
    decreases s.len(),
{
    if s.len() == 0 {
        assert(s.push(x)[0] == x);
        assert(s.push(x).drop_first() =~= s);
        match apply_step(st, x) {
            Err(e) => {},
            Ok(s2) => {
                assert(build_from(s2, s) == Ok::<BuildState, BuildErr>(s2));
            },
        }
    } else {
        assert(s.push(x)[0] == s[0]);
        assert(s.push(x).drop_first() =~= s.drop_first().push(x));
        match apply_step(st, s[0]) {
            Err(e) => {},
            Ok(s2) => {
                lemma_build_push(s2, s.drop_first(), x);
            },
        }
    }
}

/// Splitting the fold at any point first folds the prefix, then the rest.
pub proof fn lemma_build_split(st: BuildState, s: Seq<EntryView>, j: int)
    requires
        0 <= j <= s.len(),
    ensures
        build_from(st, s) == (match build_from(st, s.take(j)) {
            Err(e) => Err::<BuildState, BuildErr>(e),
            Ok(m) => build_from(m, s.skip(j)),
        }),
    decreases j,
{
    if j == 0 {
        assert(s.take(0) =~= Seq::<EntryView>::empty());
        assert(s.skip(0) =~= s);
    } else {
        assert(s.take(j)[0] == s[0]);
        assert(s.take(j).drop_first() =~= s.drop_first().take(j - 1));
        assert(s.skip(j) =~= s.drop_first().skip(j - 1));
        match apply_step(st, s[0]) {
            Err(e) => {},
            Ok(s2) => {
                lemma_build_split(s2, s.drop_first(), j - 1);
            },
        }
    }
}

/// Model of a virtual-to-parents association vector.
pub open spec fn v2p_view(s: Seq<(u8, Vec<PhysicalButton>)>) -> Seq<(u8, Seq<PhysicalButtonView>)> {
    Seq::new(
        s.len(),
        |i: int| (s[i].0, Seq::new(s[i].1@.len(), |j: int| s[i].1@[j]@)),
    )
}

/// Model of a physical-to-children association vector.
pub open spec fn p2c_view(s: Seq<(u8, Vec<VirtualButton>)>) -> Seq<(u8, Seq<VirtualButton>)> {
    Seq::new(s.len(), |i: int| (s[i].0, s[i].1@))
}

/// Model of a modifier-table vector.
pub open spec fn specials_view(s: Seq<(String, SpecialButtonKind)>) -> Seq<
    (Seq<char>, SpecialButtonKind),
> {
    Seq::new(s.len(), |i: int| (s[i].0@, s[i].1))
}

/// Model of an optional current parent.
pub open spec fn opt_view(p: Option<PhysicalButton>) -> Option<PhysicalButtonView> {
    match p {
        Some(b) => Some(b@),
        None => None,
    }
}

/// Binds `k` to `val` in the modifier table: overwritten in place when the
/// label exists, appended otherwise.
fn upsert_special(v: &mut Vec<(String, SpecialButtonKind)>, k: String, val: SpecialButtonKind)
    ensures
        specials_view(final(v)@) == label_upsert(specials_view(old(v)@), k@, val),
{
    let ghost m = specials_view(v@);
    proof {
        lemma_label_idx(m, k@);
    }
    let n = v.len();
    let mut i: usize = 0;
    while i < n
        invariant
            v@ == old(v)@,
            v@.len() == n,
            m == specials_view(v@),
            0 <= i <= n,
            forall|j: int| 0 <= j < i ==> (#[trigger] m[j]).0 != k@,
        decreases n - i,
    {
        if v[i].0.eq(&k) {
            proof {
                lemma_label_idx(m, k@);
                assert(m[i as int].0 == k@);
            }
            let _replaced = v.remove(i);
            v.insert(i, (k, val));
            proof {
                assert(specials_view(v@) =~= m.update(i as int, (k@, val)));
            }
            return ;
        }
        proof {
            assert(m[i as int].0 == v@[i as int].0@);
        }
        i += 1;
    }
    proof {
        lemma_label_idx(m, k@);
        if label_idx(m, k@) is Some {
            let j = label_idx(m, k@)->Some_0;
            assert(m[j].0 == k@);
        }
    }
    v.push((k, val));
    proof {
        assert(specials_view(v@) =~= m.push((k@, val)));
    }
}

/// Appends `b` to the parent list of virtual id `id`, creating the entry
/// when absent; reports whether the id was already present.
fn v2p_append(v: &mut Vec<(u8, Vec<PhysicalButton>)>, id: u8, b: PhysicalButton) -> (dup: bool)
    ensures
        v2p_view(final(v)@) == (match key_idx(v2p_view(old(v)@), id) {
            Some(i) => v2p_view(old(v)@).update(
                i,
                (id, v2p_view(old(v)@)[i].1.push(b@)),
            ),
            None => v2p_view(old(v)@).push((id, seq![b@])),
        }),
        dup == (key_idx(v2p_view(old(v)@), id) is Some),
{
    let ghost m = v2p_view(v@);
    proof {
        lemma_key_idx(m, id);
    }
    let n = v.len();
    let mut i: usize = 0;
    while i < n
        invariant
            v@ == old(v)@,
            v@.len() == n,
            m == v2p_view(v@),
            0 <= i <= n,
            forall|j: int| 0 <= j < i ==> (#[trigger] m[j]).0 != id,
        decreases n - i,
    {
        if v[i].0 == id {
            proof {
                lemma_key_idx(m, id);
                assert(m[i as int].0 == id);
            }
            let mut e = v.remove(i);
            let ghost pre_list = e.1@;
            e.1.push(b);
            v.insert(i, e);
            proof {
                assert forall|x: int|
                    0 <= x < v2p_view(v@).len() implies v2p_view(v@)[x] == m.update(
                    i as int,
                    (id, m[i as int].1.push(b@)),
                )[x] by {
                    if x == i as int {
                        assert(v@[x].1@ =~= pre_list.push(b));
                        assert(Seq::new(v@[x].1@.len(), |j: int| v@[x].1@[j]@) =~= m[i as int].1.push(
                            b@,
                        ));
                    } else {
                        assert(v@[x] == old(v)@[x]);
                    }
                }
                assert(v2p_view(v@) =~= m.update(i as int, (id, m[i as int].1.push(b@))));
            }
            return true;
        }
        proof {
            assert(m[i as int].0 == v@[i as int].0);
        }
        i += 1;
    }
    proof {
        lemma_key_idx(m, id);
        if key_idx(m, id) is Some {
            let j = key_idx(m, id)->Some_0;
            assert(m[j].0 == id);
        }
    }
    let single: Vec<PhysicalButton> = vec![b];
    v.push((id, single));
    proof {
        assert forall|x: int|
            0 <= x < v2p_view(v@).len() implies v2p_view(v@)[x] == m.push((id, seq![b@]))[x] by {
            if x < m.len() {
                assert(v@[x] == old(v)@[x]);
            } else {
                assert(Seq::new(v@[x].1@.len(), |j: int| v@[x].1@[j]@) =~= seq![b@]);
            }
        }
        assert(v2p_view(v@) =~= m.push((id, seq![b@])));
    }
    false
}

/// Appends `vb` to the child list of physical id `id`, creating the entry
/// when absent; reports whether the id was already present.
fn p2c_append(v: &mut Vec<(u8, Vec<VirtualButton>)>, id: u8, vb: VirtualButton) -> (dup: bool)
    ensures
        p2c_view(final(v)@) == (match key_idx(p2c_view(old(v)@), id) {
            Some(i) => p2c_view(old(v)@).update(i, (id, p2c_view(old(v)@)[i].1.push(vb))),
            None => p2c_view(old(v)@).push((id, seq![vb])),
        }),
        dup == (key_idx(p2c_view(old(v)@), id) is Some),
{
    let ghost m = p2c_view(v@);
    proof {
        lemma_key_idx(m, id);
    }
    let n = v.len();
    let mut i: usize = 0;
    while i < n
        invariant
            v@ == old(v)@,
            v@.len() == n,
            m == p2c_view(v@),
            0 <= i <= n,
            forall|j: int| 0 <= j < i ==> (#[trigger] m[j]).0 != id,
        decreases n - i,
    {
        if v[i].0 == id {
            proof {
                lemma_key_idx(m, id);
                assert(m[i as int].0 == id);
            }
            let mut e = v.remove(i);
            let ghost pre_list = e.1@;
            e.1.push(vb);
            v.insert(i, e);
            proof {
                assert forall|x: int|
                    0 <= x < p2c_view(v@).len() implies p2c_view(v@)[x] == m.update(
                    i as int,
                    (id, m[i as int].1.push(vb)),
                )[x] by {
                    if x == i as int {
                        assert(v@[x].1@ =~= pre_list.push(vb));
                    } else {
                        assert(v@[x] == old(v)@[x]);
                    }
                }
                assert(p2c_view(v@) =~= m.update(i as int, (id, m[i as int].1.push(vb))));
            }
            return true;
        }
        proof {
            assert(m[i as int].0 == v@[i as int].0);
        }
        i += 1;
    }
    proof {
        lemma_key_idx(m, id);
        if key_idx(m, id) is Some {
            let j = key_idx(m, id)->Some_0;
            assert(m[j].0 == id);
        }
    }
    let single: Vec<VirtualButton> = vec![vb];
    v.push((id, single));
    proof {
        assert forall|x: int|
            0 <= x < p2c_view(v@).len() implies p2c_view(v@)[x] == m.push((id, seq![vb]))[x] by {
            if x < m.len() {
                assert(v@[x] == old(v)@[x]);
            } else {
                assert(v@[x].1@ =~= seq![vb]);
            }
        }
        assert(p2c_view(v@) =~= m.push((id, seq![vb])));
    }
    false
}

/// The built graph: the two inverse association lists and the side table of
/// pure modifier buttons.
#[derive(Debug)]
pub struct JoystickButtonsMapping {
    /// Virtual id to the ordered list of physical buttons that produce it;
    /// a list longer than one records a duplicate virtual assignment.
    pub virtual_to_parents: Vec<(u8, Vec<PhysicalButton>)>,
    /// Physical id to the ordered list of virtual buttons it produces.
    pub physical_to_children: Vec<(u8, Vec<VirtualButton>)>,
    /// Label text of a pure modifier button to its modifier identity.
    pub special_buttons: Vec<(String, SpecialButtonKind)>,
}

impl JoystickButtonsMapping {
    /// Model of the virtual-to-parents list.
    pub open spec fn v2p(self) -> Seq<(u8, Seq<PhysicalButtonView>)> {
        Seq::new(
            self.virtual_to_parents@.len(),
            |i: int|
                (
                    self.virtual_to_parents@[i].0,
                    Seq::new(
                        self.virtual_to_parents@[i].1@.len(),
                        |j: int| self.virtual_to_parents@[i].1@[j]@,
                    ),
                ),
        )
    }

    /// Model of the physical-to-children list.
    pub open spec fn p2c(self) -> Seq<(u8, Seq<VirtualButton>)> {
        Seq::new(
            self.physical_to_children@.len(),
            |i: int| (self.physical_to_children@[i].0, self.physical_to_children@[i].1@),
        )
    }

    /// Model of the modifier table.
    pub open spec fn specials(self) -> Seq<(Seq<char>, SpecialButtonKind)> {
        Seq::new(
            self.special_buttons@.len(),
            |i: int| (self.special_buttons@[i].0@, self.special_buttons@[i].1),
        )
    }
}

impl JoystickButtonsMapping {
    /// Builds the graph from a report, together with the duplicate
    /// diagnostics noted along the way.
    pub fn build_with_diagnostics(vkb_report: VkbReport) -> (r: Result<
        (Self, Vec<BuildDiagnostic>),
        VkbReportError,
    >)
        ensures
            ({
                match build_model(vkb_report@) {
                    Ok(g) => {
                        &&& r matches Ok(p)
                        &&& p.0.v2p() == g.v2p
                        &&& p.0.p2c() == g.p2c
                        &&& p.0.specials() == g.specials
                        &&& p.1@ == g.diags
                    },
                    Err(BuildErr::Unrecognized(d)) => {
                        &&& r matches Err(VkbReportError::UnrecognizedDescription { desc })
                        &&& desc@ == d
                    },
                    Err(BuildErr::Malformed(t)) => {
                        &&& r matches Err(VkbReportError::MalformedIdentifier { text })
                        &&& text@ == chars_of(t)
                    },
                    Err(BuildErr::MissingParent) => r matches Err(VkbReportError::MissingParent),
                    Err(BuildErr::Inconsistent { virtual_id, parent_id }) => r == Err::<
                        (Self, Vec<BuildDiagnostic>),
                        VkbReportError,
                    >(VkbReportError::InconsistentParentLink { virtual_id, parent_id }),
                }
            }),
    {
        let entries = vkb_report.get_all_buttons();
        let mut result = JoystickButtonsMapping {
            virtual_to_parents: Vec::new(),
            physical_to_children: Vec::new(),
            special_buttons: Vec::new(),
        };
        let mut diags: Vec<BuildDiagnostic> = Vec::new();
        let mut current_parent: Option<PhysicalButton> = None;
        let n = entries.len();
        let mut i: usize = 0;
        proof {
            assert(vkb_report@.take(0) =~= Seq::<EntryView>::empty());
            assert(result.v2p() =~= initial_state().v2p);
            assert(result.p2c() =~= initial_state().p2c);
            assert(result.specials() =~= initial_state().specials);
        }
        while i < n
            invariant
                entries@.len() == n,
                vkb_report@.len() == n,
                forall|k: int| 0 <= k < n ==> entries@[k]@ == vkb_report@[k],
                0 <= i <= n,
                build_from(initial_state(), vkb_report@.take(i as int)) == Ok::<
                    BuildState,
                    BuildErr,
                >(
                    BuildState {
                        v2p: result.v2p(),
                        p2c: result.p2c(),
                        specials: result.specials(),
                        parent: opt_view(current_parent),
                        diags: diags@,
                    },
                ),
            decreases n - i,
        {
            let ghost pre = BuildState {
                v2p: result.v2p(),
                p2c: result.p2c(),
                specials: result.specials(),
                parent: opt_view(current_parent),
                diags: diags@,
            };
            let ghost entry = vkb_report@[i as int];
            proof {
                lemma_build_push(initial_state(), vkb_report@.take(i as int), entry);
                assert(vkb_report@.take(i as int + 1) =~= vkb_report@.take(i as int).push(entry));
                lemma_build_split(initial_state(), vkb_report@, i as int + 1);
            }
            match &entries[i] {
                VkbXmlButton::B2(desc) => {
                    match parse_b2_button_desc_xml_escaped(desc.as_str()) {
                        Err(e) => {
                            return Err(e);
                        },
                        Ok(button) => {
                            match button.get_kind() {
                                PhysicalButtonKind::Shift1 => {
                                    upsert_special(
                                        &mut result.special_buttons,
                                        button.get_info().clone(),
                                        SpecialButtonKind::Shift1,
                                    );
                                },
                                PhysicalButtonKind::Shift2 => {
                                    upsert_special(
                                        &mut result.special_buttons,
                                        button.get_info().clone(),
                                        SpecialButtonKind::Shift2,
                                    );
                                },
                                _ => {},
                            }
                            current_parent = Some(button);
                            proof {
                                assert(step_b2(pre, entry->B2_0) matches Ok(next)
                                    && next.v2p == result.v2p() && next.p2c == result.p2c()
                                    && next.specials == result.specials() && next.parent
                                    == opt_view(current_parent) && next.diags == diags@);
                            }
                        },
                    }
                },
                VkbXmlButton::B3(desc) => {
                    match &current_parent {
                        None => {
                            return Err(VkbReportError::MissingParent);
                        },
                        Some(parent) => {
                            match parse_b3_button_desc_xml_escaped(desc.as_str(), parent) {
                                Err(e) => {
                                    return Err(e);
                                },
                                Ok(vb) => {
                                    let parent_id = *parent.get_id();
                                    let dup_v = v2p_append(
                                        &mut result.virtual_to_parents,
                                        vb.id,
                                        parent.duplicate(),
                                    );
                                    if dup_v {
                                        diags.push(
                                            BuildDiagnostic::DuplicateVirtualAssignment {
                                                virtual_id: vb.id,
                                            },
                                        );
                                    }
                                    let dup_p = p2c_append(
                                        &mut result.physical_to_children,
                                        parent_id,
                                        vb,
                                    );
                                    if dup_p {
                                        diags.push(
                                            BuildDiagnostic::RepeatedPhysicalParent {
                                                physical_id: parent_id,
                                            },
                                        );
                                    }
                                    if parent_id == vb.id {
                                        diags.push(
                                            BuildDiagnostic::VirtualIdEqualsParent { id: vb.id },
                                        );
                                    }
                                    proof {
                                        assert(step_b3(pre, entry->B3_0) matches Ok(next)
                                            && next.v2p == result.v2p() && next.p2c
                                            == result.p2c() && next.specials == result.specials()
                                            && next.parent == opt_view(current_parent)
                                            && next.diags == diags@);
                                    }
                                },
                            }
                        },
                    }
                },
            }
            i += 1;
        }
        proof {
            assert(vkb_report@.take(n as int) =~= vkb_report@);
        }
        Ok((result, diags))
    }

    /// Builds the graph from a report, discarding the diagnostics.
    pub fn try_from(vkb_report: VkbReport) -> (r: Result<Self, VkbReportError>)
        ensures
            ({
                match build_model(vkb_report@) {
                    Ok(g) => {
                        &&& r matches Ok(m)
                        &&& m.v2p() == g.v2p
                        &&& m.p2c() == g.p2c
                        &&& m.specials() == g.specials
                    },
                    Err(BuildErr::Unrecognized(d)) => {
                        &&& r matches Err(VkbReportError::UnrecognizedDescription { desc })
                        &&& desc@ == d
                    },
                    Err(BuildErr::Malformed(t)) => {
                        &&& r matches Err(VkbReportError::MalformedIdentifier { text })
                        &&& text@ == chars_of(t)
                    },
                    Err(BuildErr::MissingParent) => r matches Err(VkbReportError::MissingParent),
                    Err(BuildErr::Inconsistent { virtual_id, parent_id }) => r == Err::<
                        Self,
                        VkbReportError,
                    >(VkbReportError::InconsistentParentLink { virtual_id, parent_id }),
                }
            }),
    {
        match Self::build_with_diagnostics(vkb_report) {
            Ok(p) => {
                let (m, d) = p;
                Ok(m)
            },
            Err(e) => Err(e),
        }
    }
}


/// A physical button carries the label: its device label or its
/// user-supplied label equals the text.
pub open spec fn btn_matches(b: PhysicalButtonView, text: Seq<char>) -> bool {
    b.info == text || b.user_desc == text
}

/// Position of the first button in a parent list that carries the label.
pub open spec fn list_match_idx(l: Seq<PhysicalButtonView>, text: Seq<char>) -> Option<int>
    decreases l.len(),
{
    if l.len() == 0 {
        None
    } else if btn_matches(l[0], text) {
        Some(0)
    } else {
        match list_match_idx(l.drop_first(), text) {
            Some(i) => Some(i + 1),
            None => None,
        }
    }
}

/// `list_match_idx` returns exactly the first matching position.
pub proof fn lemma_list_match_idx(l: Seq<PhysicalButtonView>, text: Seq<char>)
    ensures
        match list_match_idx(l, text) {
            Some(i) => 0 <= i < l.len() && btn_matches(l[i], text) && forall|j: int|
                0 <= j < i ==> !btn_matches(#[trigger] l[j], text),
            None => forall|j: int| 0 <= j < l.len() ==> !btn_matches(#[trigger] l[j], text),
        },
    decreases l.len(),
{
    if l.len() > 0 && !btn_matches(l[0], text) {
        let d = l.drop_first();
        lemma_list_match_idx(d, text);
        assert(forall|j: int| 0 <= j < d.len() ==> #[trigger] d[j] == l[j + 1]);
        match list_match_idx(d, text) {
            Some(i) => {
                assert forall|j: int| 0 <= j < i + 1 implies !btn_matches(
                    #[trigger] l[j],
                    text,
                ) by {
                    if j > 0 {
                        assert(d[j - 1] == l[j]);
                    }
                }
            },
            None => {
                assert forall|j: int| 0 <= j < l.len() implies !btn_matches(
                    #[trigger] l[j],
                    text,
                ) by {
                    if j > 0 {
                        assert(d[j - 1] == l[j]);
                    }
                }
            },
        }
    }
}

/// The first button carrying the label, scanning the entries of the
/// virtual-to-parents list in stored order and each parent list in order.
/// Stored order is insertion order, so this tie-break is deterministic.
pub open spec fn first_match(
    v2p: Seq<(u8, Seq<PhysicalButtonView>)>,
    text: Seq<char>,
) -> Option<PhysicalButtonView>
    decreases v2p.len(),
{
    if v2p.len() == 0 {
        None
    } else {
        match list_match_idx(v2p[0].1, text) {
            Some(j) => Some(v2p[0].1[j]),
            None => first_match(v2p.drop_first(), text),
        }
    }
}

/// Scanning from position `i` onward skips the unmatched prefix.
pub proof fn lemma_first_match_skip(
    v2p: Seq<(u8, Seq<PhysicalButtonView>)>,
    text: Seq<char>,
    i: int,
)
    requires
        0 <= i <= v2p.len(),
        forall|k: int| 0 <= k < i ==> list_match_idx((#[trigger] v2p[k]).1, text) is None,
    ensures
        first_match(v2p, text) == first_match(v2p.skip(i), text),
    decreases i,
{
    if i == 0 {
        assert(v2p.skip(0) =~= v2p);
    } else {
        assert(list_match_idx(v2p[0].1, text) is None);
        lemma_first_match_skip(v2p.drop_first(), text, i - 1);
        assert(forall|k: int|
            0 <= k < v2p.len() - 1 ==> #[trigger] v2p.drop_first()[k] == v2p[k + 1]);
        assert(v2p.drop_first().skip(i - 1) =~= v2p.skip(i));
    }
}

/// Whether two strings hold the same characters.
fn str_eq(a: &str, b: &str) -> (r: bool)
    ensures
        r == (a@ == b@),
{
    proof {
        broadcast use vstd::utf8::encode_utf8_decode_utf8;

    }
    let ab = a.as_bytes();
    let bb = b.as_bytes();
    if ab.len() != bb.len() {
        proof {
            if a@ == b@ {
                assert(a.spec_bytes() == b.spec_bytes());
            }
        }
        return false;
    }
    let r = crate::text::eq_at(ab, bb, 0);
    proof {
        vstd::utf8::encode_utf8_decode_utf8(a@);
        vstd::utf8::encode_utf8_decode_utf8(b@);
        if crate::text::match_at(ab@, bb@, 0) {
            assert(ab@.subrange(0, bb@.len() as int) =~= ab@);
            assert(a.spec_bytes() == b.spec_bytes());
            assert(a@ == b@);
        } else {
            assert(ab@.subrange(0, bb@.len() as int) =~= ab@);
            if a@ == b@ {
                assert(ab@ == bb@);
            }
        }
    }
    r
}

/// Whether an association vector holds the key.
fn has_key<V>(v: &Vec<(u8, V)>, k: u8) -> (r: bool)
    ensures
        r == (key_idx(v@, k) is Some),
{
    proof {
        lemma_key_idx(v@, k);
    }
    let n = v.len();
    let mut i: usize = 0;
    while i < n
        invariant
            v@.len() == n,
            0 <= i <= n,
            forall|j: int| 0 <= j < i ==> (#[trigger] v@[j]).0 != k,
        decreases n - i,
    {
        if v[i].0 == k {
            proof {
                lemma_key_idx(v@, k);
            }
            return true;
        }
        i += 1;
    }
    proof {
        lemma_key_idx(v@, k);
    }
    false
}

/// Association lists with the same keys agree on where a key stands.
pub proof fn lemma_key_idx_same_keys<V1, V2>(l1: Seq<(u8, V1)>, l2: Seq<(u8, V2)>, k: u8)
    requires
        l1.len() == l2.len(),
        forall|i: int| 0 <= i < l1.len() ==> (#[trigger] l1[i]).0 == (#[trigger] l2[i]).0,
    ensures
        key_idx(l1, k) == key_idx(l2, k),
    decreases l1.len(),
{
    if l1.len() > 0 {
        assert(l1[0].0 == l2[0].0);
        lemma_key_idx_same_keys(l1.drop_first(), l2.drop_first(), k);
        assert(forall|i: int|
            0 <= i < l1.len() - 1 ==> #[trigger] l1.drop_first()[i] == l1[i + 1]);
        assert(forall|i: int|
            0 <= i < l2.len() - 1 ==> #[trigger] l2.drop_first()[i] == l2[i + 1]);
    }
}

impl JoystickButtonsMapping {
    /// Looks a label up: a pure modifier button answers directly from the
    /// side table; otherwise the first physical button whose device label or
    /// user label equals the text answers with all of its children.
    pub fn get_virtual_button_ids_from_info_or_user_desc(&self, info_or_user_desc: &str) -> (r:
        Result<Vec<VirtualButtonOrSpecial>, VkbReportError>)
        ensures
            ({
                let text = info_or_user_desc@;
                match label_lookup(self.specials(), text) {
                    Some(k) => {
                        &&& r matches Ok(v)
                        &&& v@ == seq![VirtualButtonOrSpecial::Special(k)]
                    },
                    None => {
                        match first_match(self.v2p(), text) {
                            None => {
                                &&& r matches Err(
                                    VkbReportError::ButtonNotFound { info_or_user_desc: t },
                                )
                                &&& t@ == text
                            },
                            Some(b) => {
                                match key_lookup(self.p2c(), b.id) {
                                    None => r == Err::<Vec<VirtualButtonOrSpecial>, VkbReportError>(
                                        VkbReportError::MissingChildren { physical_id: b.id },
                                    ),
                                    Some(children) => {
                                        &&& r matches Ok(v)
                                        &&& v@ == Seq::new(
                                            children.len(),
                                            |i: int| VirtualButtonOrSpecial::Virtual(children[i]),
                                        )
                                    },
                                }
                            },
                        }
                    },
                }
            }),
    {
        let ghost text = info_or_user_desc@;
        let ghost sm = self.specials();
        proof {
            lemma_label_idx(sm, text);
        }
        let sn = self.special_buttons.len();
        let mut si: usize = 0;
        while si < sn
            invariant
                self.special_buttons@.len() == sn,
                sm == self.specials(),
                text == info_or_user_desc@,
                0 <= si <= sn,
                forall|j: int| 0 <= j < si ==> (#[trigger] sm[j]).0 != text,
            decreases sn - si,
        {
            if str_eq(self.special_buttons[si].0.as_str(), info_or_user_desc) {
                proof {
                    lemma_label_idx(sm, text);
                    assert(sm[si as int].0 == text);
                }
                let k = self.special_buttons[si].1;
                let mut out: Vec<VirtualButtonOrSpecial> = Vec::new();
                out.push(VirtualButtonOrSpecial::Special(k));
                proof {
                    assert(out@ =~= seq![VirtualButtonOrSpecial::Special(sm[si as int].1)]);
                }
                return Ok(out);
            }
            proof {
                assert(sm[si as int].0 == self.special_buttons@[si as int].0@);
            }
            si += 1;
        }
        proof {
            lemma_label_idx(sm, text);
            if label_idx(sm, text) is Some {
                let j = label_idx(sm, text)->Some_0;
                assert(sm[j].0 == text);
            }
        }
        let ghost vm = self.v2p();
        let mut found: Option<u8> = None;
        let vn = self.virtual_to_parents.len();
        let mut vi: usize = 0;
        while vi < vn && found.is_none()
            invariant
                self.virtual_to_parents@.len() == vn,
                vm == self.v2p(),
                text == info_or_user_desc@,
                label_lookup(self.specials(), text) is None,
                0 <= vi <= vn,
                match found {
                    None => forall|k: int|
                        0 <= k < vi ==> list_match_idx((#[trigger] vm[k]).1, text) is None,
                    Some(id) => first_match(vm, text) matches Some(b) && b.id == id,
                },
            decreases vn - vi,
        {
            let list = &self.virtual_to_parents[vi].1;
            let ghost lm = vm[vi as int].1;
            proof {
                assert(lm =~= Seq::new(list@.len(), |j: int| list@[j]@));
            }
            let ln = list.len();
            let mut li: usize = 0;
            while li < ln && found.is_none()
                invariant
                    list@.len() == ln,
                    lm == Seq::new(list@.len(), |j: int| list@[j]@),
                    text == info_or_user_desc@,
                    0 <= li <= ln,
                    match found {
                        None => forall|j: int| 0 <= j < li ==> !btn_matches(
                            #[trigger] lm[j],
                            text,
                        ),
                        Some(id) => 0 < li <= ln && lm[li - 1].id == id && btn_matches(
                            lm[li - 1],
                            text,
                        ) && forall|j: int| 0 <= j < li - 1 ==> !btn_matches(
                            #[trigger] lm[j],
                            text,
                        ),
                    },
                decreases ln - li,
            {
                let b = &list[li];
                if str_eq(b.get_info().as_str(), info_or_user_desc) || str_eq(
                    b.get_user_desc().as_str(),
                    info_or_user_desc,
                ) {
                    found = Some(*b.get_id());
                    proof {
                        assert(lm[li as int] == list@[li as int]@);
                        assert(btn_matches(lm[li as int], text));
                    }
                } else {
                    proof {
                        assert(lm[li as int] == list@[li as int]@);
                    }
                }
                li += 1;
            }
            proof {
                match found {
                    None => {
                        lemma_list_match_idx(lm, text);
                        if list_match_idx(lm, text) is Some {
                            let j = list_match_idx(lm, text)->Some_0;
                            assert(btn_matches(lm[j], text));
                        }
                    },
                    Some(id) => {
                        lemma_list_match_idx(lm, text);
                        let j = list_match_idx(lm, text)->Some_0;
                        assert(j == li - 1);
                        lemma_first_match_skip(vm, text, vi as int);
                        assert(vm.skip(vi as int)[0] == vm[vi as int]);
                        assert(first_match(vm, text) == Some(vm[vi as int].1[j]));
                    },
                }
            }
            vi += 1;
        }
        match found {
            None => {
                proof {
                    lemma_first_match_skip(vm, text, vn as int);
                    assert(vm.skip(vn as int).len() == 0);
                }
                Err(
                    VkbReportError::ButtonNotFound {
                        info_or_user_desc: info_or_user_desc.to_owned(),
                    },
                )
            },
            Some(id) => {
                let ghost pm = self.p2c();
                proof {
                    lemma_key_idx(pm, id);
                }
                let pn = self.physical_to_children.len();
                let mut pi: usize = 0;
                while pi < pn
                    invariant
                        self.physical_to_children@.len() == pn,
                        pm == self.p2c(),
                        text == info_or_user_desc@,
                        label_lookup(self.specials(), text) is None,
                        first_match(self.v2p(), text) matches Some(fb) && fb.id == id,
                        0 <= pi <= pn,
                        forall|j: int| 0 <= j < pi ==> (#[trigger] pm[j]).0 != id,
                    decreases pn - pi,
                {
                    if self.physical_to_children[pi].0 == id {
                        proof {
                            lemma_key_idx(pm, id);
                            assert(pm[pi as int].0 == id);
                            assert(key_idx(pm, id) == Some(pi as int));
                        }
                        let children = &self.physical_to_children[pi].1;
                        let cn = children.len();
                        let mut out: Vec<VirtualButtonOrSpecial> = Vec::new();
                        let mut ci: usize = 0;
                        while ci < cn
                            invariant
                                children@.len() == cn,
                                pm == self.p2c(),
                                pm[pi as int].1 == children@,
                                key_idx(pm, id) == Some(pi as int),
                                0 <= pi < pm.len(),
                                text == info_or_user_desc@,
                                label_lookup(self.specials(), text) is None,
                                first_match(self.v2p(), text) matches Some(fb) && fb.id == id,
                                0 <= ci <= cn,
                                out@ =~= Seq::new(
                                    ci as nat,
                                    |i: int| VirtualButtonOrSpecial::Virtual(children@[i]),
                                ),
                            decreases cn - ci,
                        {
                            out.push(VirtualButtonOrSpecial::Virtual(children[ci]));
                            proof {
                                assert(out@ =~= Seq::new(
                                    (ci + 1) as nat,
                                    |i: int| VirtualButtonOrSpecial::Virtual(children@[i]),
                                ));
                            }
                            ci += 1;
                        }
                        proof {
                            assert(pm[pi as int].1 == children@);
                            assert(out@ =~= Seq::new(
                                children@.len(),
                                |i: int| VirtualButtonOrSpecial::Virtual(children@[i]),
                            ));
                        }
                        return Ok(out);
                    }
                    proof {
                        assert(pm[pi as int].0 == self.physical_to_children@[pi as int].0);
                    }
                    pi += 1;
                }
                proof {
                    lemma_key_idx(pm, id);
                    if key_idx(pm, id) is Some {
                        let j = key_idx(pm, id)->Some_0;
                        assert(pm[j].0 == id);
                    }
                }
                Err(VkbReportError::MissingChildren { physical_id: id })
            },
        }
    }
}


/// A virtual id is free when no virtual button is mapped to it and no
/// physical line occupies it, even remapped.
pub open spec fn is_free(
    v2p: Seq<(u8, Seq<PhysicalButtonView>)>,
    p2c: Seq<(u8, Seq<VirtualButton>)>,
    b: u8,
) -> bool {
    key_idx(v2p, b) is None && key_idx(p2c, b) is None
}

/// What the user-description list must provide for a physical button:
/// a record at position `id - 1` with at least two columns.
pub open spec fn record_status(id: u8, records: Seq<Seq<Seq<char>>>) -> Option<VkbReportError> {
    if id == 0 || records.len() < id {
        Some(VkbReportError::MissingRecord { physical_id: id })
    } else if records[id - 1].len() < 2 {
        Some(VkbReportError::MissingColumn { physical_id: id })
    } else {
        None
    }
}

/// The first missing record or column over a parent list, in order.
pub open spec fn first_record_err_list(
    l: Seq<PhysicalButtonView>,
    records: Seq<Seq<Seq<char>>>,
) -> Option<VkbReportError>
    decreases l.len(),
{
    if l.len() == 0 {
        None
    } else {
        match record_status(l[0].id, records) {
            Some(e) => Some(e),
            None => first_record_err_list(l.drop_first(), records),
        }
    }
}

/// The first missing record or column over the whole graph, scanning the
/// virtual-to-parents entries in stored order.
pub open spec fn first_record_err(
    v2p: Seq<(u8, Seq<PhysicalButtonView>)>,
    records: Seq<Seq<Seq<char>>>,
) -> Option<VkbReportError>
    decreases v2p.len(),
{
    if v2p.len() == 0 {
        None
    } else {
        match first_record_err_list(v2p[0].1, records) {
            Some(e) => Some(e),
            None => first_record_err(v2p.drop_first(), records),
        }
    }
}

/// A parent list with every button's user label overwritten from the
/// records, by the button's line number.
pub open spec fn inject_list(
    l: Seq<PhysicalButtonView>,
    records: Seq<Seq<Seq<char>>>,
) -> Seq<PhysicalButtonView> {
    Seq::new(
        l.len(),
        |j: int| PhysicalButtonView { user_desc: records[l[j].id - 1][1], ..l[j] },
    )
}

/// The whole virtual-to-parents list with every parent's user label
/// overwritten from the records.
pub open spec fn inject_v2p(
    v2p: Seq<(u8, Seq<PhysicalButtonView>)>,
    records: Seq<Seq<Seq<char>>>,
) -> Seq<(u8, Seq<PhysicalButtonView>)> {
    Seq::new(v2p.len(), |i: int| (v2p[i].0, inject_list(v2p[i].1, records)))
}

/// Model of a user-description record list.
pub open spec fn records_view(r: Seq<Vec<String>>) -> Seq<Seq<Seq<char>>> {
    Seq::new(r.len(), |i: int| Seq::new(r[i]@.len(), |j: int| r[i]@[j]@))
}

impl JoystickButtonsMapping {
    /// The free virtual identifiers, in increasing order: those in the valid
    /// range that appear as a key in neither map.
    ///
    /// A free identifier may safely be given a new binding without touching
    /// any existing one.
    pub fn log_free_virtual_buttons(&self) -> (r: Vec<u8>)
        ensures
            forall|b: u8|
                r@.contains(b) <==> (1 <= b < 128 && is_free(self.v2p(), self.p2c(), b)),
            forall|i: int, j: int| 0 <= i < j < r@.len() ==> r@[i] < r@[j],
    {
        let mut unused: Vec<u8> = Vec::new();
        let mut i: u8 = 1;
        while i < 128
            invariant
                1 <= i <= 128,
                forall|b: u8|
                    unused@.contains(b) <==> (1 <= b < i && is_free(self.v2p(), self.p2c(), b)),
                forall|x: int, y: int| 0 <= x < y < unused@.len() ==> unused@[x] < unused@[y],
                forall|x: int| 0 <= x < unused@.len() ==> unused@[x] < i,
            decreases 128 - i,
        {
            let in_v2p = has_key(&self.virtual_to_parents, i);
            let in_p2c = has_key(&self.physical_to_children, i);
            proof {
                lemma_key_idx_same_keys(self.virtual_to_parents@, self.v2p(), i);
                lemma_key_idx_same_keys(self.physical_to_children@, self.p2c(), i);
            }
            if !in_v2p && !in_p2c {
                let ghost pre = unused@;
                unused.push(i);
                proof {
                    assert forall|b: u8|
                        unused@.contains(b) <==> (1 <= b < i + 1 && is_free(
                            self.v2p(),
                            self.p2c(),
                            b,
                        )) by {
                        if unused@.contains(b) {
                            let x = choose|x: int|
                                0 <= x < unused@.len() && unused@[x] == b;
                            if x < pre.len() {
                                assert(pre[x] == b);
                                assert(pre.contains(b));
                            }
                        }
                        if 1 <= b < i + 1 && is_free(self.v2p(), self.p2c(), b) {
                            if b < i {
                                assert(pre.contains(b));
                                let x = choose|x: int| 0 <= x < pre.len() && pre[x] == b;
                                assert(unused@[x] == b);
                            } else {
                                assert(unused@[pre.len() as int] == b);
                            }
                        }
                    }
                }
            } else {
                proof {
                    assert forall|b: u8|
                        unused@.contains(b) <==> (1 <= b < i + 1 && is_free(
                            self.v2p(),
                            self.p2c(),
                            b,
                        )) by {}
                }
            }
            i += 1;
        }
        unused
    }

    /// Overwrites every recorded parent's user label with the second column
    /// of the record at its line number. When a record or its column is
    /// missing the graph is left unchanged and the first missing place, in
    /// stored order, is reported.
    pub fn inject_user_provided_desc(&mut self, records: &Vec<Vec<String>>) -> (r: Result<
        (),
        VkbReportError,
    >)
        ensures
            ({
                let rs = records_view(records@);
                match first_record_err(old(self).v2p(), rs) {
                    Some(e) => {
                        &&& r == Err::<(), VkbReportError>(e)
                        &&& final(self).v2p() == old(self).v2p()
                        &&& final(self).p2c() == old(self).p2c()
                        &&& final(self).specials() == old(self).specials()
                    },
                    None => {
                        &&& r == Ok::<(), VkbReportError>(())
                        &&& final(self).v2p() == inject_v2p(old(self).v2p(), rs)
                        &&& final(self).p2c() == old(self).p2c()
                        &&& final(self).specials() == old(self).specials()
                    },
                }
            }),
    {
        let ghost vm = self.v2p();
        let ghost rs = records_view(records@);
        // First pass: find the first missing record or column, touching
        // nothing.
        let vn = self.virtual_to_parents.len();
        let mut vi: usize = 0;
        while vi < vn
            invariant
                self.virtual_to_parents@ == old(self).virtual_to_parents@,
                self.physical_to_children@ == old(self).physical_to_children@,
                self.special_buttons@ == old(self).special_buttons@,
                self.virtual_to_parents@.len() == vn,
                vm == self.v2p(),
                vm == old(self).v2p(),
                rs == records_view(records@),
                records@.len() == rs.len(),
                0 <= vi <= vn,
                forall|k: int|
                    0 <= k < vi ==> first_record_err_list((#[trigger] vm[k]).1, rs) is None,
            decreases vn - vi,
        {
            let list = &self.virtual_to_parents[vi].1;
            let ghost lm = vm[vi as int].1;
            proof {
                assert(lm =~= Seq::new(list@.len(), |j: int| list@[j]@));
            }
            let ln = list.len();
            let mut li: usize = 0;
            while li < ln
                invariant
                    self.virtual_to_parents@ == old(self).virtual_to_parents@,
                    self.physical_to_children@ == old(self).physical_to_children@,
                    self.special_buttons@ == old(self).special_buttons@,
                    self.virtual_to_parents@.len() == vn,
                    vm == self.v2p(),
                    vm == old(self).v2p(),
                    rs == records_view(records@),
                    records@.len() == rs.len(),
                    0 <= vi < vn,
                    forall|k: int|
                        0 <= k < vi ==> first_record_err_list((#[trigger] vm[k]).1, rs) is None,
                    list == &self.virtual_to_parents@[vi as int].1,
                    list@.len() == ln,
                    lm == vm[vi as int].1,
                    lm == Seq::new(list@.len(), |j: int| list@[j]@),
                    0 <= li <= ln,
                    forall|j: int|
                        0 <= j < li ==> record_status((#[trigger] lm[j]).id, rs) is None,
                decreases ln - li,
            {
                let id = *list[li].get_id();
                proof {
                    assert(lm[li as int] == list@[li as int]@);
                }
                if id == 0 || records.len() < id as usize {
                    proof {
                        lemma_first_record_err_hit(vm, rs, vi as int, li as int);
                    }
                    return Err(VkbReportError::MissingRecord { physical_id: id });
                }
                proof {
                    assert(rs[id - 1].len() == records@[id - 1]@.len());
                }
                if records[id as usize - 1].len() < 2 {
                    proof {
                        lemma_first_record_err_hit(vm, rs, vi as int, li as int);
                    }
                    return Err(VkbReportError::MissingColumn { physical_id: id });
                }
                li += 1;
            }
            proof {
                lemma_record_err_list_none(lm, rs);
            }
            vi += 1;
        }
        proof {
            lemma_record_err_none(vm, rs, vn as int);
        }
        // Second pass: overwrite every parent's user label in place.
        let mut vi2: usize = 0;
        while vi2 < vn
            invariant
                self.physical_to_children@ == old(self).physical_to_children@,
                self.special_buttons@ == old(self).special_buttons@,
                self.virtual_to_parents@.len() == vn,
                vm == old(self).v2p(),
                vm.len() == vn,
                rs == records_view(records@),
                records@.len() == rs.len(),
                first_record_err(vm, rs) is None,
                0 <= vi2 <= vn,
                forall|k: int| vi2 <= k < vn ==> #[trigger] self.v2p()[k] == vm[k],
                forall|k: int|
                    0 <= k < vi2 ==> #[trigger] self.v2p()[k] == (
                    vm[k].0,
                    inject_list(vm[k].1, rs),
                ),
                forall|k: int|
                    0 <= k < vn ==> record_err_free_entry((#[trigger] vm[k]).1, rs),
            decreases vn - vi2,
        {
            let ghost entry_m = vm[vi2 as int];
            proof {
                assert(self.v2p()[vi2 as int] == vm[vi2 as int]);
                assert(self.virtual_to_parents@[vi2 as int].0 == entry_m.0);
                assert(Seq::new(
                    self.virtual_to_parents@[vi2 as int].1@.len(),
                    |j: int| self.virtual_to_parents@[vi2 as int].1@[j]@,
                ) == entry_m.1);
            }
            let ghost pre_vec = self.virtual_to_parents@;
            let ghost pre_v2p = self.v2p();
            let mut entry = self.virtual_to_parents.remove(vi2);
            proof {
                assert(entry == pre_vec[vi2 as int]);
                assert forall|j: int|
                    0 <= j < entry.1@.len() implies #[trigger] entry.1@[j]@ == entry_m.1[j] by {
                    assert(entry.1@[j] == pre_vec[vi2 as int].1@[j]);
                }
                assert(entry.1@.len() == entry_m.1.len());
            }
            let ln = entry.1.len();
            let mut li: usize = 0;
            while li < ln
                invariant
                    entry.1@.len() == ln,
                    entry.0 == entry_m.0,
                    entry_m.1.len() == ln,
                    rs == records_view(records@),
                    records@.len() == rs.len(),
                    record_err_free_entry(entry_m.1, rs),
                    0 <= li <= ln,
                    forall|j: int| li <= j < ln ==> #[trigger] entry.1@[j]@ == entry_m.1[j],
                    forall|j: int|
                        0 <= j < li ==> #[trigger] entry.1@[j]@ == (PhysicalButtonView {
                            user_desc: rs[entry_m.1[j].id - 1][1],
                            ..entry_m.1[j]
                        }),
                decreases ln - li,
            {
                let ghost pre_list = entry.1@;
                let mut b = entry.1.remove(li);
                proof {
                    assert(b@ == entry_m.1[li as int]);
                    assert(record_status(b@.id, rs) is None);
                }
                let id = *b.get_id();
                let rec = &records[id as usize - 1];
                proof {
                    assert(rs[id - 1] =~= Seq::new(rec@.len(), |j: int| rec@[j]@));
                    assert(rs[id - 1].len() >= 2);
                }
                b.set_user_desc(rec[1].as_str());
                entry.1.insert(li, b);
                proof {
                    assert(entry.1@.len() == ln);
                    assert forall|j: int|
                        0 <= j < ln && j != li implies #[trigger] entry.1@[j] == pre_list[j] by {}
                    assert(entry.1@[li as int]@ == (PhysicalButtonView {
                        user_desc: rs[entry_m.1[li as int].id - 1][1],
                        ..entry_m.1[li as int]
                    }));
                }
                li += 1;
            }
            let ghost mid_vec = self.virtual_to_parents@;
            self.virtual_to_parents.insert(vi2, entry);
            proof {
                assert forall|k: int|
                    0 <= k < vn implies #[trigger] self.v2p()[k] == (
                    if k < vi2 + 1 {
                        (vm[k].0, inject_list(vm[k].1, rs))
                    } else {
                        vm[k]
                    }
                ) by {
                    if k == vi2 as int {
                        assert(self.virtual_to_parents@[k] == entry);
                        assert(Seq::new(
                            self.virtual_to_parents@[k].1@.len(),
                            |j: int| self.virtual_to_parents@[k].1@[j]@,
                        ) =~= inject_list(vm[k].1, rs));
                    } else if k < vi2 as int {
                        assert(mid_vec[k] == pre_vec[k]);
                        assert(self.virtual_to_parents@[k] == pre_vec[k]);
                        assert(self.v2p()[k] == pre_v2p[k]);
                        assert(pre_v2p[k] == (vm[k].0, inject_list(vm[k].1, rs)));
                    } else {
                        assert(mid_vec[k - 1] == pre_vec[k]);
                        assert(self.virtual_to_parents@[k] == pre_vec[k]);
                        assert(self.v2p()[k] == pre_v2p[k]);
                        assert(pre_v2p[k] == vm[k]);
                    }
                }
            }
            vi2 += 1;
        }
        proof {
            assert(self.v2p() =~= inject_v2p(vm, rs));
        }
        Ok(())
    }
}

/// Every button of the entry has its record and column.
pub open spec fn record_err_free_entry(
    l: Seq<PhysicalButtonView>,
    records: Seq<Seq<Seq<char>>>,
) -> bool {
    forall|j: int| 0 <= j < l.len() ==> record_status((#[trigger] l[j]).id, records) is None
}

/// A list whose buttons all have records yields no error.
proof fn lemma_record_err_list_none(l: Seq<PhysicalButtonView>, records: Seq<Seq<Seq<char>>>)
    requires
        forall|j: int| 0 <= j < l.len() ==> record_status((#[trigger] l[j]).id, records) is None,
    ensures
        first_record_err_list(l, records) is None,
    decreases l.len(),
{
    if l.len() > 0 {
        assert(record_status(l[0].id, records) is None);
        assert(forall|j: int|
            0 <= j < l.len() - 1 ==> #[trigger] l.drop_first()[j] == l[j + 1]);
        lemma_record_err_list_none(l.drop_first(), records);
    }
}

/// A graph whose lists are all clean yields no error.
proof fn lemma_record_err_none(
    v2p: Seq<(u8, Seq<PhysicalButtonView>)>,
    records: Seq<Seq<Seq<char>>>,
    n: int,
)
    requires
        n == v2p.len(),
        forall|k: int| 0 <= k < n ==> first_record_err_list((#[trigger] v2p[k]).1, records) is None,
    ensures
        first_record_err(v2p, records) is None,
        forall|k: int| 0 <= k < n ==> record_err_free_entry((#[trigger] v2p[k]).1, records),
    decreases v2p.len(),
{
    if v2p.len() > 0 {
        assert(first_record_err_list(v2p[0].1, records) is None);
        assert(forall|k: int|
            0 <= k < v2p.len() - 1 ==> #[trigger] v2p.drop_first()[k] == v2p[k + 1]);
        lemma_record_err_none(v2p.drop_first(), records, n - 1);
        assert forall|k: int| 0 <= k < n implies record_err_free_entry(
            (#[trigger] v2p[k]).1,
            records,
        ) by {
            lemma_list_clean(v2p[k].1, records);
        }
    }
}

/// A clean list has a record for each of its buttons.
proof fn lemma_list_clean(l: Seq<PhysicalButtonView>, records: Seq<Seq<Seq<char>>>)
    requires
        first_record_err_list(l, records) is None,
    ensures
        record_err_free_entry(l, records),
    decreases l.len(),
{
    if l.len() > 0 {
        lemma_list_clean(l.drop_first(), records);
        assert(forall|j: int|
            0 <= j < l.len() - 1 ==> #[trigger] l.drop_first()[j] == l[j + 1]);
        assert forall|j: int| 0 <= j < l.len() implies record_status(
            (#[trigger] l[j]).id,
            records,
        ) is None by {
            if j > 0 {
                assert(l.drop_first()[j - 1] == l[j]);
            }
        }
    }
}

/// The offending button at `(vi, li)` is the first one, so its error is
/// the one reported.
proof fn lemma_first_record_err_hit(
    v2p: Seq<(u8, Seq<PhysicalButtonView>)>,
    records: Seq<Seq<Seq<char>>>,
    vi: int,
    li: int,
)
    requires
        0 <= vi < v2p.len(),
        0 <= li < v2p[vi].1.len(),
        record_status(v2p[vi].1[li].id, records) is Some,
        forall|j: int|
            0 <= j < li ==> record_status((#[trigger] v2p[vi].1[j]).id, records) is None,
        forall|k: int|
            0 <= k < vi ==> first_record_err_list((#[trigger] v2p[k]).1, records) is None,
    ensures
        first_record_err(v2p, records) == record_status(v2p[vi].1[li].id, records),
    decreases vi,
{
    if vi == 0 {
        lemma_first_list_hit(v2p[0].1, records, li);
    } else {
        assert(first_record_err_list(v2p[0].1, records) is None);
        assert(forall|k: int|
            0 <= k < v2p.len() - 1 ==> #[trigger] v2p.drop_first()[k] == v2p[k + 1]);
        lemma_first_record_err_hit(v2p.drop_first(), records, vi - 1, li);
    }
}

/// The offending button at `li` is the first one of its list.
proof fn lemma_first_list_hit(l: Seq<PhysicalButtonView>, records: Seq<Seq<Seq<char>>>, li: int)
    requires
        0 <= li < l.len(),
        record_status(l[li].id, records) is Some,
        forall|j: int| 0 <= j < li ==> record_status((#[trigger] l[j]).id, records) is None,
    ensures
        first_record_err_list(l, records) == record_status(l[li].id, records),
    decreases li,
{
    if li > 0 {
        assert(record_status(l[0].id, records) is None);
        assert(forall|j: int|
            0 <= j < l.len() - 1 ==> #[trigger] l.drop_first()[j] == l[j + 1]);
        lemma_first_list_hit(l.drop_first(), records, li - 1);
    }
}

/// Well-formedness of a build state: every parent list and every child list
/// is non-empty, and every physical button stored as a parent owns a
/// non-empty child list under its own id.
pub open spec fn graph_wf(st: BuildState) -> bool {
    &&& forall|i: int| 0 <= i < st.v2p.len() ==> (#[trigger] st.v2p[i]).1.len() >= 1
    &&& forall|i: int| 0 <= i < st.p2c.len() ==> (#[trigger] st.p2c[i]).1.len() >= 1
    &&& forall|i: int, j: int|
        0 <= i < st.v2p.len() && 0 <= j < st.v2p[i].1.len() ==> (match key_lookup(
            st.p2c,
            (#[trigger] st.v2p[i].1[j]).id,
        ) {
            Some(ch) => ch.len() >= 1,
            None => false,
        })
}

/// Pushing an entry onto an association list moves no existing key.
proof fn lemma_key_idx_push<V>(l: Seq<(u8, V)>, e: (u8, V), k: u8)
    ensures
        key_idx(l.push(e), k) == (if key_idx(l, k) is Some {
            key_idx(l, k)
        } else if e.0 == k {
            Some(l.len() as int)
        } else {
            None::<int>
        }),
    decreases l.len(),
{
    if l.len() == 0 {
        assert(l.push(e)[0] == e);
        let d = l.push(e).drop_first();
        assert(d =~= Seq::<(u8, V)>::empty());
        assert(key_idx(d, k) is None);
        if e.0 == k {
            assert(key_idx(l.push(e), k) == Some(0int));
        } else {
            assert(key_idx(l.push(e), k) is None);
        }
    } else {
        assert(l.push(e)[0] == l[0]);
        assert(l.push(e).drop_first() =~= l.drop_first().push(e));
        lemma_key_idx_push(l.drop_first(), e, k);
    }
}

/// Updating an association list in place, keeping the key, moves no key.
proof fn lemma_key_idx_update<V>(l: Seq<(u8, V)>, i: int, v: V, k: u8)
    requires
        0 <= i < l.len(),
    ensures
        key_idx(l.update(i, (l[i].0, v)), k) == key_idx(l, k),
    decreases l.len(),
{
    let l2 = l.update(i, (l[i].0, v));
    assert(l2.len() == l.len());
    if l.len() > 0 {
        assert(l2[0].0 == l[0].0);
        if l[0].0 != k {
            if i == 0 {
                assert(l2.drop_first() =~= l.drop_first());
            } else {
                assert(l.drop_first()[i - 1] == l[i]);
                assert(l2.drop_first() =~= l.drop_first().update(
                    i - 1,
                    (l.drop_first()[i - 1].0, v),
                ));
                lemma_key_idx_update(l.drop_first(), i - 1, v, k);
            }
        }
    }
}

/// One successful build step preserves well-formedness.
proof fn lemma_step_wf(st: BuildState, e: EntryView)
    requires
        graph_wf(st),
        apply_step(st, e) is Ok,
    ensures
        graph_wf(apply_step(st, e)->Ok_0),
{
    match e {
        EntryView::B2(d) => {
            let st2 = step_b2(st, d)->Ok_0;
            assert(st2.v2p == st.v2p && st2.p2c == st.p2c);
        },
        EntryView::B3(d) => {
            let st2 = step_b3(st, d)->Ok_0;
            let parent = st.parent->Some_0;
            let pid = parent.id;
            // Recover the appended virtual button and the two new lists from
            // the step definition.
            let ids = b3_ids_spec(ascii_bytes(d))->Ok_0;
            let k = virtual_kind_spec(parent.kind, parent.id, ids.1, ids.0)->Some_0;
            let vb = VirtualButton { id: ids.1, kind: k };
            lemma_key_idx(st.p2c, pid);
            lemma_key_idx(st.v2p, vb.id);
            match key_idx(st.p2c, pid) {
                Some(ci) => {
                    assert(st.p2c[ci].0 == pid);
                    assert(st2.p2c == st.p2c.update(ci, (pid, st.p2c[ci].1.push(vb))));
                },
                None => {
                    assert(st2.p2c == st.p2c.push((pid, seq![vb])));
                },
            }
            match key_idx(st.v2p, vb.id) {
                Some(vi) => {
                    assert(st.v2p[vi].0 == vb.id);
                    assert(st2.v2p == st.v2p.update(vi, (vb.id, st.v2p[vi].1.push(parent))));
                },
                None => {
                    assert(st2.v2p == st.v2p.push((vb.id, seq![parent])));
                },
            }
            // Child lists: every stored key keeps a list at least as long,
            // and the parent id now owns a non-empty list.
            assert forall|x: u8| #[trigger] key_idx(st.p2c, x) is Some implies key_idx(
                st2.p2c,
                x,
            ) is Some && key_lookup(st2.p2c, x)->Some_0.len() >= key_lookup(
                st.p2c,
                x,
            )->Some_0.len() by {
                lemma_key_idx(st.p2c, x);
                match key_idx(st.p2c, pid) {
                    Some(i) => {
                        assert(st.p2c[i].0 == pid);
                        assert(st2.p2c == st.p2c.update(i, (pid, st.p2c[i].1.push(vb))));
                        lemma_key_idx_update(st.p2c, i, st.p2c[i].1.push(vb), x);
                    },
                    None => {
                        assert(st2.p2c == st.p2c.push((pid, seq![vb])));
                        lemma_key_idx_push(st.p2c, (pid, seq![vb]), x);
                    },
                }
            }
            assert(key_lookup(st2.p2c, pid) matches Some(ch) && ch.len() >= 1) by {
                match key_idx(st.p2c, pid) {
                    Some(i) => {
                        assert(st.p2c[i].0 == pid);
                        lemma_key_idx_update(st.p2c, i, st.p2c[i].1.push(vb), pid);
                    },
                    None => {
                        lemma_key_idx_push(st.p2c, (pid, seq![vb]), pid);
                    },
                }
            }
            // Parent lists: each position of the new list either held the
            // same button before, or holds the freshly appended parent.
            assert forall|i: int, j: int|
                0 <= i < st2.v2p.len() && 0 <= j < st2.v2p[i].1.len() implies (
            #[trigger] st2.v2p[i].1[j] == parent || (0 <= i < st.v2p.len() && 0 <= j
                < st.v2p[i].1.len() && st2.v2p[i].1[j] == st.v2p[i].1[j])) by {
                match key_idx(st.v2p, vb.id) {
                    Some(ii) => {
                        assert(st2.v2p == st.v2p.update(ii, (vb.id, st.v2p[ii].1.push(parent))));
                        if i == ii {
                            if j < st.v2p[ii].1.len() {
                                assert(st2.v2p[i].1[j] == st.v2p[i].1[j]);
                            } else {
                                assert(st2.v2p[i].1[j] == parent);
                            }
                        } else {
                            assert(st2.v2p[i] == st.v2p[i]);
                        }
                    },
                    None => {
                        assert(st2.v2p == st.v2p.push((vb.id, seq![parent])));
                        if i < st.v2p.len() {
                            assert(st2.v2p[i] == st.v2p[i]);
                        } else {
                            assert(st2.v2p[i].1 == seq![parent]);
                            assert(st2.v2p[i].1[j] == parent);
                        }
                    },
                }
            }
            assert forall|i: int, j: int|
                0 <= i < st2.v2p.len() && 0 <= j < st2.v2p[i].1.len() implies (match key_lookup(
                st2.p2c,
                (#[trigger] st2.v2p[i].1[j]).id,
            ) {
                Some(ch) => ch.len() >= 1,
                None => false,
            }) by {
                let b = st2.v2p[i].1[j];
                if b == parent {
                } else {
                    assert(0 <= i < st.v2p.len() && 0 <= j < st.v2p[i].1.len() && b == st.v2p[i].1[j]);
                    assert(key_lookup(st.p2c, b.id) matches Some(ch) && ch.len() >= 1);
                    lemma_key_idx(st.p2c, b.id);
                }
            }
            assert forall|i: int| 0 <= i < st2.v2p.len() implies (#[trigger] st2.v2p[i]).1.len()
                >= 1 by {
                match key_idx(st.v2p, vb.id) {
                    Some(ii) => {
                        if i != ii {
                            assert(st2.v2p[i] == st.v2p[i]);
                        }
                    },
                    None => {
                        if i < st.v2p.len() {
                            assert(st2.v2p[i] == st.v2p[i]);
                        }
                    },
                }
            }
            assert forall|i: int| 0 <= i < st2.p2c.len() implies (#[trigger] st2.p2c[i]).1.len()
                >= 1 by {
                match key_idx(st.p2c, pid) {
                    Some(ii) => {
                        if i != ii {
                            assert(st2.p2c[i] == st.p2c[i]);
                        }
                    },
                    None => {
                        if i < st.p2c.len() {
                            assert(st2.p2c[i] == st.p2c[i]);
                        }
                    },
                }
            }
        },
    }
}

/// A whole successful build yields a well-formed state.
proof fn lemma_build_from_wf(st: BuildState, entries: Seq<EntryView>)
    requires
        graph_wf(st),
        build_from(st, entries) is Ok,
    ensures
        graph_wf(build_from(st, entries)->Ok_0),
    decreases entries.len(),
{
    if entries.len() > 0 {
        lemma_step_wf(st, entries[0]);
        lemma_build_from_wf(apply_step(st, entries[0])->Ok_0, entries.drop_first());
    }
}

/// The graph built from any report is well-formed.
pub proof fn lemma_build_model_wf(entries: Seq<EntryView>)
    requires
        build_model(entries) is Ok,
    ensures
        graph_wf(build_model(entries)->Ok_0),
{
    lemma_build_from_wf(initial_state(), entries);
}

/// A list with a matching button yields a first match.
proof fn lemma_list_match_exists(l: Seq<PhysicalButtonView>, text: Seq<char>, j: int)
    requires
        0 <= j < l.len(),
        btn_matches(l[j], text),
    ensures
        list_match_idx(l, text) is Some,
    decreases j,
{
    if l.len() > 0 && !btn_matches(l[0], text) {
        assert(l.drop_first()[j - 1] == l[j]);
        lemma_list_match_exists(l.drop_first(), text, j - 1);
    }
}

/// A graph with a matching button somewhere yields a first match, and any
/// first match is itself a stored button.
proof fn lemma_first_match_member(v2p: Seq<(u8, Seq<PhysicalButtonView>)>, text: Seq<char>)
    ensures
        first_match(v2p, text) matches Some(b) ==> exists|i: int, j: int|
            0 <= i < v2p.len() && 0 <= j < v2p[i].1.len() && #[trigger] v2p[i].1[j] == b,
    decreases v2p.len(),
{
    if v2p.len() > 0 {
        match list_match_idx(v2p[0].1, text) {
            Some(j) => {
                lemma_list_match_idx(v2p[0].1, text);
                assert(v2p[0].1[j] == first_match(v2p, text)->Some_0);
            },
            None => {
                lemma_first_match_member(v2p.drop_first(), text);
                if first_match(v2p, text) is Some {
                    let b = first_match(v2p, text)->Some_0;
                    let d = v2p.drop_first();
                    let (i2, j2) = choose|i2: int, j2: int|
                        0 <= i2 < d.len() && 0 <= j2 < d[i2].1.len() && #[trigger] d[i2].1[j2]
                            == b;
                    assert(d[i2] == v2p[i2 + 1]);
                    assert(v2p[i2 + 1].1[j2] == b);
                }
            },
        }
    }
}

/// A stored matching button means the scan finds one.
proof fn lemma_first_match_exists(
    v2p: Seq<(u8, Seq<PhysicalButtonView>)>,
    text: Seq<char>,
    i: int,
    j: int,
)
    requires
        0 <= i < v2p.len(),
        0 <= j < v2p[i].1.len(),
        btn_matches(v2p[i].1[j], text),
    ensures
        first_match(v2p, text) is Some,
    decreases i,
{
    if i == 0 {
        lemma_list_match_exists(v2p[0].1, text, j);
    } else {
        match list_match_idx(v2p[0].1, text) {
            Some(_) => {},
            None => {
                assert(v2p.drop_first()[i - 1] == v2p[i]);
                lemma_first_match_exists(v2p.drop_first(), text, i - 1, j);
            },
        }
    }
}

/// Round trip: in a graph built from any report, looking any stored
/// physical button up by its own device label answers non-emptily: either
/// the label names a pure modifier, or the scan finds a button whose child
/// list exists and is non-empty. Every physical id present in the
/// physical-to-children list owns a non-empty child list.
pub proof fn lemma_lookup_round_trip(entries: Seq<EntryView>, g: BuildState, i: int, j: int)
    requires
        build_model(entries) == Ok::<BuildState, BuildErr>(g),
        0 <= i < g.v2p.len(),
        0 <= j < g.v2p[i].1.len(),
    ensures
        ({
            let b = g.v2p[i].1[j];
            label_lookup(g.specials, b.info) is None ==> (match first_match(g.v2p, b.info) {
                Some(fb) => key_lookup(g.p2c, fb.id) matches Some(ch) && ch.len() >= 1,
                None => false,
            })
        }),
        forall|k: int| 0 <= k < g.p2c.len() ==> (#[trigger] g.p2c[k]).1.len() >= 1,
{
    lemma_build_model_wf(entries);
    let b = g.v2p[i].1[j];
    assert(btn_matches(b, b.info));
    lemma_first_match_exists(g.v2p, b.info, i, j);
    lemma_first_match_member(g.v2p, b.info);
    let fb = first_match(g.v2p, b.info)->Some_0;
    let (fi, fj) = choose|fi: int, fj: int|
        0 <= fi < g.v2p.len() && 0 <= fj < g.v2p[fi].1.len() && #[trigger] g.v2p[fi].1[fj]
            == fb;
    assert(key_lookup(g.p2c, g.v2p[fi].1[fj].id) matches Some(ch) && ch.len() >= 1);
}

/// Injecting the same user descriptions twice leaves what one injection
/// leaves: the button ids are untouched, so the same labels land again.
pub proof fn lemma_inject_idempotent(
    v2p: Seq<(u8, Seq<PhysicalButtonView>)>,
    records: Seq<Seq<Seq<char>>>,
)
    ensures
        inject_v2p(inject_v2p(v2p, records), records) == inject_v2p(v2p, records),
        first_record_err(inject_v2p(v2p, records), records) == first_record_err(v2p, records),
{
    let once = inject_v2p(v2p, records);
    let twice = inject_v2p(once, records);
    assert forall|i: int| 0 <= i < v2p.len() implies #[trigger] twice[i] == once[i] by {
        assert(once[i].1 =~= inject_list(v2p[i].1, records));
        assert(twice[i].1 =~= inject_list(once[i].1, records));
        assert forall|j: int|
            0 <= j < v2p[i].1.len() implies #[trigger] twice[i].1[j] == once[i].1[j] by {
            assert(once[i].1[j].id == v2p[i].1[j].id);
        }
        assert(twice[i].1 =~= once[i].1);
    }
    assert(twice =~= once);
    lemma_inject_err_unchanged(v2p, records);
}

/// Injection never changes which record is missing: ids are untouched.
proof fn lemma_inject_err_unchanged(
    v2p: Seq<(u8, Seq<PhysicalButtonView>)>,
    records: Seq<Seq<Seq<char>>>,
)
    ensures
        first_record_err(inject_v2p(v2p, records), records) == first_record_err(v2p, records),
    decreases v2p.len(),
{
    let once = inject_v2p(v2p, records);
    if v2p.len() > 0 {
        lemma_inject_list_err_unchanged(v2p[0].1, records);
        assert(once[0].1 == inject_list(v2p[0].1, records));
        lemma_inject_err_unchanged(v2p.drop_first(), records);
        assert(once.drop_first() =~= inject_v2p(v2p.drop_first(), records)) by {
            assert forall|k: int|
                0 <= k < v2p.len() - 1 implies #[trigger] once.drop_first()[k] == inject_v2p(
                v2p.drop_first(),
                records,
            )[k] by {
                assert(once.drop_first()[k] == once[k + 1]);
                assert(v2p.drop_first()[k] == v2p[k + 1]);
            }
        }
    }
}

/// Injection never changes which record a list is missing.
proof fn lemma_inject_list_err_unchanged(
    l: Seq<PhysicalButtonView>,
    records: Seq<Seq<Seq<char>>>,
)
    ensures
        first_record_err_list(inject_list(l, records), records) == first_record_err_list(
            l,
            records,
        ),
    decreases l.len(),
{
    let once = inject_list(l, records);
    if l.len() > 0 {
        assert(once[0].id == l[0].id);
        lemma_inject_list_err_unchanged(l.drop_first(), records);
        assert(once.drop_first() =~= inject_list(l.drop_first(), records)) by {
            assert forall|k: int|
                0 <= k < l.len() - 1 implies #[trigger] once.drop_first()[k] == inject_list(
                l.drop_first(),
                records,
            )[k] by {
                assert(once.drop_first()[k] == once[k + 1]);
                assert(l.drop_first()[k] == l[k + 1]);
            }
        }
    }
}

} // verus!
