//! Description classifier: turns one escaped-HTML description string into a
//! structured physical or virtual button.
//!
//! The first bold segment of a physical description always has the form
//! `#<id> <optional info>`; the second carries a keyword that selects the
//! button kind by an ordered list of substring tests; the free text after the
//! bold segments carries modifier sub-identifiers delimited by fixed marker
//! phrases. Any shape outside the enumerated cases is a typed failure, never
//! a guess.

use vstd::prelude::*;

use crate::VkbReportError;
use crate::button::{
    PhysicalButton, PhysicalButtonKind, PhysicalButtonKindView, PhysicalButtonView, ShiftKind,
    TempoKind, VirtualButton, VirtualButtonKind, VirtualShiftKind, VirtualTempoKind,
};
use crate::desc::{desc_parts, lemma_desc_parts_ascii, split_desc, tail_parts};
use crate::text::{
    after_last, after_last_vec, all_ascii, ascii_bytes, ascii_to_string, before_first,
    before_first_vec, chars_of, check_ascii, contains_pat, find_first, find_pat,
    lemma_all_ascii_normalize, lemma_all_ascii_remove_all_lf, lemma_all_ascii_remove_first_lf,
    lemma_all_ascii_splits, lemma_all_ascii_subrange, lemma_all_ascii_trim,
    lemma_ascii_bytes_all, lemma_find_from, normalize_newlines, normalize_newlines_vec,
    parse_u8_bytes, parse_u8_spec, remove_all_lf, remove_all_lf_vec, remove_first_lf,
    remove_first_lf_vec, str_bytes, subrange_vec, trim_bytes, trim_seq, is_digit, match_at,
    lemma_match_byte, lemma_no_match_without_head, lemma_find_at, lemma_find_last_at,
    lemma_normalize_no_cr, lemma_remove_all_lf_concat, lemma_remove_all_lf_id, is_space,
};

verus! {

/// How classification of a description fails, at the level of the model:
/// either no rule matches, or a numeric field does not parse.
pub enum DescError {
    Unrecognized,
    Malformed(Seq<u8>),
}

/// Executable counterpart of [`DescError`].
enum DescFailure {
    Unrecognized,
    Malformed(Vec<u8>),
}

impl DescFailure {
    spec fn matches(&self, e: DescError) -> bool {
        match (self, e) {
            (DescFailure::Unrecognized, DescError::Unrecognized) => true,
            (DescFailure::Malformed(v), DescError::Malformed(t)) => v@ == t && all_ascii(v@),
            _ => false,
        }
    }
}

/// The identifier and trimmed label of a first bold segment `#<id> <info>`.
pub open spec fn id_info_spec(inner: Seq<u8>) -> Result<(u8, Seq<u8>), DescError> {
    if inner.len() == 0 || inner[0] != 35 {
        Err(DescError::Unrecognized)
    } else {
        let rest = inner.skip(1);
        match find_pat(rest, seq![32u8]) {
            None => Err(DescError::Unrecognized),
            Some(k) => {
                let id_txt = rest.subrange(0, k);
                let info_raw = rest.subrange(k + 1, rest.len() as int);
                match parse_u8_spec(id_txt) {
                    None => Err(DescError::Malformed(id_txt)),
                    Some(id) => Ok((id, trim_seq(info_raw))),
                }
            },
        }
    }
}

/// Executable form of [`id_info_spec`].
fn id_info_bytes(inner: &[u8]) -> (r: Result<(u8, Vec<u8>), DescFailure>)
    requires
        all_ascii(inner@),
    ensures
        match (r, id_info_spec(inner@)) {
            (Ok(rv), Ok(sv)) => rv.0 == sv.0 && rv.1@ == sv.1 && all_ascii(rv.1@),
            (Err(rf), Err(se)) => rf.matches(se),
            _ => false,
        },
{
    let ilen = inner.len();
    if ilen == 0 || inner[0] != 35 {
        return Err(DescFailure::Unrecognized);
    }
    let rest = subrange_vec(inner, 1, ilen);
    proof {
        assert(rest@ =~= inner@.skip(1));
        lemma_all_ascii_subrange(inner@, 1, ilen as int);
    }
    let space: Vec<u8> = vec![32u8];
    proof {
        assert(space@ =~= seq![32u8]);
    }
    match find_first(rest.as_slice(), space.as_slice()) {
        None => Err(DescFailure::Unrecognized),
        Some(k) => {
            proof {
                lemma_find_from(rest@, seq![32u8], 0);
            }
            let rlen = rest.len();
            let id_txt = subrange_vec(rest.as_slice(), 0, k);
            let info_raw = subrange_vec(rest.as_slice(), k + 1, rlen);
            match parse_u8_bytes(id_txt.as_slice()) {
                None => {
                    proof {
                        lemma_all_ascii_subrange(rest@, 0, k as int);
                    }
                    Err(DescFailure::Malformed(id_txt))
                },
                Some(id) => {
                    let info = trim_bytes(info_raw.as_slice());
                    proof {
                        lemma_all_ascii_subrange(rest@, k + 1, rlen as int);
                        lemma_all_ascii_trim(info_raw@);
                    }
                    Ok((id, info))
                },
            }
        },
    }
}

/// The identifier and label parsed out of a first bold segment.
#[derive(Debug, PartialEq, Eq)]
pub struct ButtonIdAndInfo {
    pub id: u8,
    pub info: Option<String>,
}

/// Parses the first bold segment of a physical description, of the form
/// `#<id> <optional info>`: the identifier, and the trimmed remainder.
pub fn extract_button_id_from_inner_html(inner_html_desc: &str) -> (r: Result<
    ButtonIdAndInfo,
    VkbReportError,
>)
    ensures
        ({
            let cs = inner_html_desc@;
            if vstd::utf8::is_ascii_chars(cs) {
                match id_info_spec(ascii_bytes(cs)) {
                    Ok(sv) => {
                        &&& r matches Ok(b)
                        &&& b.id == sv.0
                        &&& b.info matches Some(s)
                        &&& s@ == chars_of(sv.1)
                    },
                    Err(DescError::Unrecognized) => {
                        &&& r matches Err(VkbReportError::UnrecognizedDescription { desc })
                        &&& desc@ == cs
                    },
                    Err(DescError::Malformed(t)) => {
                        &&& r matches Err(VkbReportError::MalformedIdentifier { text })
                        &&& text@ == chars_of(t)
                    },
                }
            } else {
                &&& r matches Err(VkbReportError::UnrecognizedDescription { desc })
                &&& desc@ == cs
            }
        }),
{
    if !check_ascii(inner_html_desc) {
        return Err(
            VkbReportError::UnrecognizedDescription { desc: inner_html_desc.to_owned() },
        );
    }
    let bytes = str_bytes(inner_html_desc);
    proof {
        lemma_ascii_bytes_all(inner_html_desc@);
    }
    match id_info_bytes(bytes) {
        Ok(p) => {
            let (id, info) = p;
            Ok(ButtonIdAndInfo { id, info: Some(ascii_to_string(info)) })
        },
        Err(DescFailure::Unrecognized) => Err(
            VkbReportError::UnrecognizedDescription { desc: inner_html_desc.to_owned() },
        ),
        Err(DescFailure::Malformed(t)) => Err(
            VkbReportError::MalformedIdentifier { text: ascii_to_string(t) },
        ),
    }
}

/// Classification of the free text of a tempo button: which virtual ids the
/// short, long and (optionally) double press produce.
pub open spec fn tempo_kind_spec(text: Seq<u8>) -> Result<PhysicalButtonKindView, DescError> {
    let short_p = ascii_bytes("Virtual button Short #"@);
    let long_p = ascii_bytes("Virtual button Long #"@);
    let double_p = ascii_bytes("Virtual button Double Short #"@);
    if contains_pat(text, short_p) && contains_pat(text, long_p) && !contains_pat(
        text,
        double_p,
    ) {
        let short_txt = before_first(after_last(text, short_p), long_p);
        let long_txt = after_last(text, long_p);
        match parse_u8_spec(short_txt) {
            None => Err(DescError::Malformed(short_txt)),
            Some(sid) => match parse_u8_spec(long_txt) {
                None => Err(DescError::Malformed(long_txt)),
                Some(lid) => Ok(
                    PhysicalButtonKindView::Tempo(
                        TempoKind::Tempo2 { button_id_short: sid, button_id_long: lid },
                    ),
                ),
            },
        }
    } else if contains_pat(text, short_p) && contains_pat(text, long_p) && contains_pat(
        text,
        double_p,
    ) {
        let short_txt = before_first(after_last(text, short_p), long_p);
        let long_txt = remove_all_lf(before_first(after_last(text, long_p), double_p));
        let double_txt = after_last(text, double_p);
        match parse_u8_spec(short_txt) {
            None => Err(DescError::Malformed(short_txt)),
            Some(sid) => match parse_u8_spec(long_txt) {
                None => Err(DescError::Malformed(long_txt)),
                Some(lid) => match parse_u8_spec(double_txt) {
                    None => Err(DescError::Malformed(double_txt)),
                    Some(did) => Ok(
                        PhysicalButtonKindView::Tempo(
                            TempoKind::Tempo3 {
                                button_id_short: sid,
                                button_id_long: lid,
                                button_id_double: did,
                            },
                        ),
                    ),
                },
            },
        }
    } else {
        Err(DescError::Unrecognized)
    }
}

/// Classification of the free text of a momentary button: which alternate
/// virtual ids the shift modifiers produce, if any.
pub open spec fn momentary_kind_spec(texts: Seq<Seq<u8>>) -> Result<
    PhysicalButtonKindView,
    DescError,
> {
    if texts.len() == 0 {
        Ok(PhysicalButtonKindView::Momentary { shift: None })
    } else if texts.len() == 1 {
        let t = texts[0];
        let s1c = ascii_bytes("Virtual button with SHIFT1 ="@);
        let s2c = ascii_bytes("Virtual button with SHIFT2 ="@);
        let s1p = ascii_bytes("Virtual button with SHIFT1 = "@);
        let s2p = ascii_bytes("Virtual button with SHIFT2 = "@);
        if contains_pat(t, s1c) && contains_pat(t, s2c) {
            let a_txt = before_first(after_last(t, s1p), s2p);
            let b_txt = after_last(t, s2p);
            match parse_u8_spec(a_txt) {
                None => Err(DescError::Malformed(a_txt)),
                Some(a) => match parse_u8_spec(b_txt) {
                    None => Err(DescError::Malformed(b_txt)),
                    Some(b) => Ok(
                        PhysicalButtonKindView::Momentary {
                            shift: Some(
                                ShiftKind::Shift12 { button_id_shift1: a, button_id_shift2: b },
                            ),
                        },
                    ),
                },
            }
        } else if contains_pat(t, s1c) {
            let a_txt = after_last(t, s1p);
            match parse_u8_spec(a_txt) {
                None => Err(DescError::Malformed(a_txt)),
                Some(a) => Ok(
                    PhysicalButtonKindView::Momentary {
                        shift: Some(ShiftKind::Shift1 { button_id_shift1: a }),
                    },
                ),
            }
        } else if contains_pat(t, s2c) {
            let b_txt = after_last(t, s2p);
            match parse_u8_spec(b_txt) {
                None => Err(DescError::Malformed(b_txt)),
                Some(b) => Ok(
                    PhysicalButtonKindView::Momentary {
                        shift: Some(ShiftKind::Shift2 { button_id_shift2: b }),
                    },
                ),
            }
        } else {
            Err(DescError::Unrecognized)
        }
    } else {
        Err(DescError::Unrecognized)
    }
}

/// Classification of a point-of-view direction: the final space-delimited
/// token of the second text segment.
pub open spec fn pov_kind_spec(texts: Seq<Seq<u8>>) -> Result<PhysicalButtonKindView, DescError> {
    if texts.len() < 2 {
        Err(DescError::Unrecognized)
    } else {
        Ok(PhysicalButtonKindView::Pov { direction: chars_of(after_last(texts[1], seq![32u8])) })
    }
}

/// The kind a physical description denotes: an ordered list of mutually
/// exclusive substring tests over the second bold segment, first match wins.
pub open spec fn kind_spec(second: Seq<u8>, texts: Seq<Seq<u8>>) -> Result<
    PhysicalButtonKindView,
    DescError,
> {
    if contains_pat(second, ascii_bytes("TEMPO"@)) {
        if texts.len() == 1 {
            tempo_kind_spec(texts[0])
        } else {
            Err(DescError::Unrecognized)
        }
    } else if contains_pat(second, ascii_bytes("Encoder"@)) {
        Ok(PhysicalButtonKindView::Encoder)
    } else if contains_pat(second, ascii_bytes("Button with momentary action"@)) {
        momentary_kind_spec(texts)
    } else if contains_pat(second, ascii_bytes(" SHIFT1 "@)) {
        Ok(PhysicalButtonKindView::Shift1)
    } else if contains_pat(second, ascii_bytes(" SHIFT2 alternate action"@)) {
        Ok(PhysicalButtonKindView::Shift2)
    } else if contains_pat(second, ascii_bytes("Point of view Switch"@)) {
        pov_kind_spec(texts)
    } else if contains_pat(second, ascii_bytes("No defined function"@)) {
        Ok(PhysicalButtonKindView::Undefined)
    } else if contains_pat(second, ascii_bytes("Microstick Mode Switch"@)) {
        Ok(PhysicalButtonKindView::MicrostickModeSwitch)
    } else {
        Err(DescError::Unrecognized)
    }
}

/// A pattern literal as bytes.
fn lit_vec(s: &str) -> (r: Vec<u8>)
    requires
        vstd::utf8::is_ascii_chars(s@),
    ensures
        r@ == ascii_bytes(s@),
        r@.len() == s@.len(),
{
    vstd::slice::slice_to_vec(str_bytes(s))
}

/// Whether `s` contains the pattern `p`.
fn has_pat(s: &[u8], p: &[u8]) -> (r: bool)
    requires
        p@.len() >= 1,
    ensures
        r == contains_pat(s@, p@),
{
    find_first(s, p).is_some()
}

/// Executable form of [`tempo_kind_spec`].
fn tempo_kind(text: &[u8]) -> (r: Result<PhysicalButtonKind, DescFailure>)
    requires
        all_ascii(text@),
    ensures
        match (r, tempo_kind_spec(text@)) {
            (Ok(rv), Ok(sv)) => rv@ == sv,
            (Err(rf), Err(se)) => rf.matches(se),
            _ => false,
        },
{
    proof {
        reveal_strlit("Virtual button Short #");
        reveal_strlit("Virtual button Long #");
        reveal_strlit("Virtual button Double Short #");
    }
    let short_p = lit_vec("Virtual button Short #");
    let long_p = lit_vec("Virtual button Long #");
    let double_p = lit_vec("Virtual button Double Short #");
    let has_s = has_pat(text, short_p.as_slice());
    let has_l = has_pat(text, long_p.as_slice());
    let has_d = has_pat(text, double_p.as_slice());
    if has_s && has_l && !has_d {
        let short_txt = before_first_vec(
            after_last_vec(text, short_p.as_slice()).as_slice(),
            long_p.as_slice(),
        );
        let long_txt = after_last_vec(text, long_p.as_slice());
        proof {
            lemma_all_ascii_splits(text@, short_p@);
            lemma_all_ascii_splits(after_last(text@, short_p@), long_p@);
            lemma_all_ascii_splits(text@, long_p@);
        }
        match parse_u8_bytes(short_txt.as_slice()) {
            None => Err(DescFailure::Malformed(short_txt)),
            Some(sid) => match parse_u8_bytes(long_txt.as_slice()) {
                None => Err(DescFailure::Malformed(long_txt)),
                Some(lid) => Ok(
                    PhysicalButtonKind::Tempo(
                        TempoKind::Tempo2 { button_id_short: sid, button_id_long: lid },
                    ),
                ),
            },
        }
    } else if has_s && has_l && has_d {
        let short_txt = before_first_vec(
            after_last_vec(text, short_p.as_slice()).as_slice(),
            long_p.as_slice(),
        );
        let long_txt = remove_all_lf_vec(
            before_first_vec(
                after_last_vec(text, long_p.as_slice()).as_slice(),
                double_p.as_slice(),
            ).as_slice(),
        );
        let double_txt = after_last_vec(text, double_p.as_slice());
        proof {
            lemma_all_ascii_splits(text@, short_p@);
            lemma_all_ascii_splits(after_last(text@, short_p@), long_p@);
            lemma_all_ascii_splits(text@, long_p@);
            lemma_all_ascii_splits(after_last(text@, long_p@), double_p@);
            lemma_all_ascii_remove_all_lf(
                before_first(after_last(text@, long_p@), double_p@),
            );
            lemma_all_ascii_splits(text@, double_p@);
        }
        match parse_u8_bytes(short_txt.as_slice()) {
            None => Err(DescFailure::Malformed(short_txt)),
            Some(sid) => match parse_u8_bytes(long_txt.as_slice()) {
                None => Err(DescFailure::Malformed(long_txt)),
                Some(lid) => match parse_u8_bytes(double_txt.as_slice()) {
                    None => Err(DescFailure::Malformed(double_txt)),
                    Some(did) => Ok(
                        PhysicalButtonKind::Tempo(
                            TempoKind::Tempo3 {
                                button_id_short: sid,
                                button_id_long: lid,
                                button_id_double: did,
                            },
                        ),
                    ),
                },
            },
        }
    } else {
        Err(DescFailure::Unrecognized)
    }
}

/// Executable form of [`momentary_kind_spec`].
fn momentary_kind(texts: &Vec<Vec<u8>>) -> (r: Result<PhysicalButtonKind, DescFailure>)
    requires
        forall|i: int| 0 <= i < texts@.len() ==> all_ascii(#[trigger] texts@[i]@),
    ensures
        match (r, momentary_kind_spec(texts.deep_view())) {
            (Ok(rv), Ok(sv)) => rv@ == sv,
            (Err(rf), Err(se)) => rf.matches(se),
            _ => false,
        },
{
    if texts.len() == 0 {
        proof {
            assert(texts.deep_view().len() == 0);
        }
        return Ok(PhysicalButtonKind::Momentary { shift: None });
    }
    if texts.len() > 1 {
        return Err(DescFailure::Unrecognized);
    }
    let t = &texts[0];
    proof {
        assert(texts.deep_view()[0] == t@);
    }
    proof {
        reveal_strlit("Virtual button with SHIFT1 =");
        reveal_strlit("Virtual button with SHIFT2 =");
        reveal_strlit("Virtual button with SHIFT1 = ");
        reveal_strlit("Virtual button with SHIFT2 = ");
    }
    let s1c = lit_vec("Virtual button with SHIFT1 =");
    let s2c = lit_vec("Virtual button with SHIFT2 =");
    let s1p = lit_vec("Virtual button with SHIFT1 = ");
    let s2p = lit_vec("Virtual button with SHIFT2 = ");
    let has1 = has_pat(t.as_slice(), s1c.as_slice());
    let has2 = has_pat(t.as_slice(), s2c.as_slice());
    if has1 && has2 {
        let a_txt = before_first_vec(
            after_last_vec(t.as_slice(), s1p.as_slice()).as_slice(),
            s2p.as_slice(),
        );
        let b_txt = after_last_vec(t.as_slice(), s2p.as_slice());
        proof {
            lemma_all_ascii_splits(t@, s1p@);
            lemma_all_ascii_splits(after_last(t@, s1p@), s2p@);
            lemma_all_ascii_splits(t@, s2p@);
        }
        match parse_u8_bytes(a_txt.as_slice()) {
            None => Err(DescFailure::Malformed(a_txt)),
            Some(a) => match parse_u8_bytes(b_txt.as_slice()) {
                None => Err(DescFailure::Malformed(b_txt)),
                Some(b) => Ok(
                    PhysicalButtonKind::Momentary {
                        shift: Some(
                            ShiftKind::Shift12 { button_id_shift1: a, button_id_shift2: b },
                        ),
                    },
                ),
            },
        }
    } else if has1 {
        let a_txt = after_last_vec(t.as_slice(), s1p.as_slice());
        proof {
            lemma_all_ascii_splits(t@, s1p@);
        }
        match parse_u8_bytes(a_txt.as_slice()) {
            None => Err(DescFailure::Malformed(a_txt)),
            Some(a) => Ok(
                PhysicalButtonKind::Momentary {
                    shift: Some(ShiftKind::Shift1 { button_id_shift1: a }),
                },
            ),
        }
    } else if has2 {
        let b_txt = after_last_vec(t.as_slice(), s2p.as_slice());
        proof {
            lemma_all_ascii_splits(t@, s2p@);
        }
        match parse_u8_bytes(b_txt.as_slice()) {
            None => Err(DescFailure::Malformed(b_txt)),
            Some(b) => Ok(
                PhysicalButtonKind::Momentary {
                    shift: Some(ShiftKind::Shift2 { button_id_shift2: b }),
                },
            ),
        }
    } else {
        Err(DescFailure::Unrecognized)
    }
}

/// Executable form of [`kind_spec`].
fn classify_kind(second: &[u8], texts: &Vec<Vec<u8>>) -> (r: Result<
    PhysicalButtonKind,
    DescFailure,
>)
    requires
        all_ascii(second@),
        forall|i: int| 0 <= i < texts@.len() ==> all_ascii(#[trigger] texts@[i]@),
    ensures
        match (r, kind_spec(second@, texts.deep_view())) {
            (Ok(rv), Ok(sv)) => rv@ == sv,
            (Err(rf), Err(se)) => rf.matches(se),
            _ => false,
        },
{
    proof {
        reveal_strlit("TEMPO");
        reveal_strlit("Encoder");
        reveal_strlit("Button with momentary action");
        reveal_strlit(" SHIFT1 ");
        reveal_strlit(" SHIFT2 alternate action");
        reveal_strlit("Point of view Switch");
        reveal_strlit("No defined function");
        reveal_strlit("Microstick Mode Switch");
    }
    if has_pat(second, lit_vec("TEMPO").as_slice()) {
        if texts.len() == 1 {
            let t = &texts[0];
            proof {
                assert(texts.deep_view()[0] == t@);
            }
            tempo_kind(t.as_slice())
        } else {
            Err(DescFailure::Unrecognized)
        }
    } else if has_pat(second, lit_vec("Encoder").as_slice()) {
        Ok(PhysicalButtonKind::Encoder)
    } else if has_pat(second, lit_vec("Button with momentary action").as_slice()) {
        momentary_kind(texts)
    } else if has_pat(second, lit_vec(" SHIFT1 ").as_slice()) {
        Ok(PhysicalButtonKind::Shift1)
    } else if has_pat(second, lit_vec(" SHIFT2 alternate action").as_slice()) {
        Ok(PhysicalButtonKind::Shift2)
    } else if has_pat(second, lit_vec("Point of view Switch").as_slice()) {
        if texts.len() < 2 {
            Err(DescFailure::Unrecognized)
        } else {
            let t = &texts[1];
            proof {
                assert(texts.deep_view()[1] == t@);
            }
            let space: Vec<u8> = vec![32u8];
            proof {
                assert(space@ =~= seq![32u8]);
            }
            let dir = after_last_vec(t.as_slice(), space.as_slice());
            proof {
                lemma_all_ascii_splits(t@, seq![32u8]);
            }
            Ok(PhysicalButtonKind::Pov { direction: ascii_to_string(dir) })
        }
    } else if has_pat(second, lit_vec("No defined function").as_slice()) {
        Ok(PhysicalButtonKind::Undefined)
    } else if has_pat(second, lit_vec("Microstick Mode Switch").as_slice()) {
        Ok(PhysicalButtonKind::MicrostickModeSwitch)
    } else {
        Err(DescFailure::Unrecognized)
    }
}

/// The model of a classified physical description.
pub struct PhysModel {
    pub id: u8,
    pub kind: PhysicalButtonKindView,
    pub info: Seq<u8>,
    pub extended_desc: Seq<u8>,
}

/// The physical button a description denotes, at the level of the model:
/// newline canonicalisation, the bold split, the `#<id> <info>` head, and
/// the keyword classification, in that order.
pub open spec fn parse_b2_spec(s: Seq<u8>) -> Result<PhysModel, DescError> {
    let n = normalize_newlines(s);
    match desc_parts(n) {
        None => Err(DescError::Unrecognized),
        Some(parts) => {
            let bolds = parts.0;
            let texts_raw = parts.1;
            if bolds.len() == 0 {
                Err(DescError::Unrecognized)
            } else {
                match id_info_spec(bolds[0]) {
                    Err(e) => Err(e),
                    Ok(idinfo) => {
                        if bolds.len() != 2 {
                            Err(DescError::Unrecognized)
                        } else {
                            let texts = Seq::new(
                                texts_raw.len(),
                                |i: int| remove_first_lf(trim_seq(texts_raw[i])),
                            );
                            if texts.len() > 2 {
                                Err(DescError::Unrecognized)
                            } else {
                                match kind_spec(bolds[1], texts) {
                                    Err(e) => Err(e),
                                    Ok(kind) => Ok(
                                        PhysModel {
                                            id: idinfo.0,
                                            kind,
                                            info: idinfo.1,
                                            extended_desc: bolds[1],
                                        },
                                    ),
                                }
                            }
                        }
                    },
                }
            }
        },
    }
}

/// The physical-id hint and virtual id of a virtual ("b3") description of
/// the form `<b>#<hint> </b> Joystick button : #<virtual_id>`.
pub open spec fn b3_ids_spec(s: Seq<u8>) -> Result<(u8, u8), DescError> {
    let jb = ascii_bytes("Joystick button : #"@);
    let ob = ascii_bytes("<b>#"@);
    let cb = ascii_bytes(" </b>"@);
    match find_pat(s, jb) {
        None => Err(DescError::Unrecognized),
        Some(i) => {
            let pre = s.subrange(0, i);
            let post = s.subrange(i + jb.len(), s.len() as int);
            let virt_txt = trim_seq(before_first(post, jb));
            match find_pat(pre, ob) {
                None => Err(DescError::Unrecognized),
                Some(k) => {
                    let region = pre.subrange(k + ob.len(), pre.len() as int);
                    let ph_txt = trim_seq(before_first(before_first(region, ob), cb));
                    match parse_u8_spec(ph_txt) {
                        None => Err(DescError::Malformed(ph_txt)),
                        Some(ph) => match parse_u8_spec(virt_txt) {
                            None => Err(DescError::Malformed(virt_txt)),
                            Some(vt) => Ok((ph, vt)),
                        },
                    }
                },
            }
        },
    }
}

/// Executable form of [`b3_ids_spec`].
fn b3_ids_bytes(s: &[u8]) -> (r: Result<(u8, u8), DescFailure>)
    requires
        all_ascii(s@),
    ensures
        match (r, b3_ids_spec(s@)) {
            (Ok(rv), Ok(sv)) => rv == sv,
            (Err(rf), Err(se)) => rf.matches(se),
            _ => false,
        },
{
    proof {
        reveal_strlit("Joystick button : #");
        reveal_strlit("<b>#");
        reveal_strlit(" </b>");
    }
    let jb = lit_vec("Joystick button : #");
    let ob = lit_vec("<b>#");
    let cb = lit_vec(" </b>");
    let slen = s.len();
    match find_first(s, jb.as_slice()) {
        None => Err(DescFailure::Unrecognized),
        Some(i) => {
            proof {
                lemma_find_from(s@, jb@, 0);
            }
            let pre = subrange_vec(s, 0, i);
            let post = subrange_vec(s, i + jb.len(), slen);
            proof {
                lemma_all_ascii_subrange(s@, 0, i as int);
                lemma_all_ascii_subrange(s@, i + jb@.len(), slen as int);
            }
            let virt_txt = trim_bytes(before_first_vec(post.as_slice(), jb.as_slice()).as_slice());
            proof {
                lemma_all_ascii_splits(post@, jb@);
                lemma_all_ascii_trim(before_first(post@, jb@));
            }
            match find_first(pre.as_slice(), ob.as_slice()) {
                None => Err(DescFailure::Unrecognized),
                Some(k) => {
                    proof {
                        lemma_find_from(pre@, ob@, 0);
                    }
                    let plen = pre.len();
                    let region = subrange_vec(pre.as_slice(), k + ob.len(), plen);
                    proof {
                        lemma_all_ascii_subrange(pre@, k + ob@.len(), plen as int);
                    }
                    let ph_txt = trim_bytes(
                        before_first_vec(
                            before_first_vec(region.as_slice(), ob.as_slice()).as_slice(),
                            cb.as_slice(),
                        ).as_slice(),
                    );
                    proof {
                        lemma_all_ascii_splits(region@, ob@);
                        lemma_all_ascii_splits(before_first(region@, ob@), cb@);
                        lemma_all_ascii_trim(before_first(before_first(region@, ob@), cb@));
                    }
                    match parse_u8_bytes(ph_txt.as_slice()) {
                        None => Err(DescFailure::Malformed(ph_txt)),
                        Some(ph) => match parse_u8_bytes(virt_txt.as_slice()) {
                            None => Err(DescFailure::Malformed(virt_txt)),
                            Some(vt) => Ok((ph, vt)),
                        },
                    }
                },
            }
        },
    }
}

/// How a virtual id is reached from its declared parent: the id (or, failing
/// that, the physical-id hint) is matched against the parent's recorded
/// tempo and shift sub-identifiers, then against the parent's own line
/// number; `None` when it traces back to none of them.
pub open spec fn virtual_kind_spec(
    parent_kind: PhysicalButtonKindView,
    parent_id: u8,
    virtual_id: u8,
    physical_hint: u8,
) -> Option<VirtualButtonKind> {
    match parent_kind {
        PhysicalButtonKindView::Momentary { shift } => match shift {
            None => Some(VirtualButtonKind::Momentary(None)),
            Some(ShiftKind::Shift1 { button_id_shift1 }) => {
                if virtual_id == button_id_shift1 {
                    Some(VirtualButtonKind::Momentary(Some(VirtualShiftKind::Shift1)))
                } else if virtual_id == parent_id {
                    Some(VirtualButtonKind::Momentary(None))
                } else {
                    None
                }
            },
            Some(ShiftKind::Shift2 { button_id_shift2 }) => {
                if virtual_id == button_id_shift2 {
                    Some(VirtualButtonKind::Momentary(Some(VirtualShiftKind::Shift2)))
                } else if virtual_id == parent_id {
                    Some(VirtualButtonKind::Momentary(None))
                } else {
                    None
                }
            },
            Some(ShiftKind::Shift12 { button_id_shift1, button_id_shift2 }) => {
                if virtual_id == button_id_shift1 {
                    Some(VirtualButtonKind::Momentary(Some(VirtualShiftKind::Shift1)))
                } else if virtual_id == button_id_shift2 {
                    Some(VirtualButtonKind::Momentary(Some(VirtualShiftKind::Shift2)))
                } else if virtual_id == parent_id || physical_hint == parent_id {
                    Some(VirtualButtonKind::Momentary(None))
                } else if physical_hint == button_id_shift1 {
                    Some(VirtualButtonKind::Momentary(Some(VirtualShiftKind::Shift1)))
                } else if physical_hint == button_id_shift2 {
                    Some(VirtualButtonKind::Momentary(Some(VirtualShiftKind::Shift2)))
                } else {
                    None
                }
            },
        },
        PhysicalButtonKindView::Encoder => Some(VirtualButtonKind::Momentary(None)),
        PhysicalButtonKindView::Tempo(TempoKind::Tempo2 { button_id_short, button_id_long }) => {
            if virtual_id == button_id_short {
                Some(VirtualButtonKind::Tempo(VirtualTempoKind::Short))
            } else if virtual_id == button_id_long {
                Some(VirtualButtonKind::Tempo(VirtualTempoKind::Long))
            } else if virtual_id == parent_id || physical_hint == parent_id {
                Some(VirtualButtonKind::Momentary(None))
            } else {
                None
            }
        },
        PhysicalButtonKindView::Tempo(
            TempoKind::Tempo3 { button_id_short, button_id_long, button_id_double },
        ) => {
            if virtual_id == button_id_short {
                Some(VirtualButtonKind::Tempo(VirtualTempoKind::Short))
            } else if virtual_id == button_id_long {
                Some(VirtualButtonKind::Tempo(VirtualTempoKind::Long))
            } else if virtual_id == button_id_double {
                Some(VirtualButtonKind::Tempo(VirtualTempoKind::Double))
            } else if virtual_id == parent_id {
                Some(VirtualButtonKind::Momentary(None))
            } else if physical_hint == button_id_short {
                Some(VirtualButtonKind::Tempo(VirtualTempoKind::Short))
            } else {
                None
            }
        },
        _ => None,
    }
}

/// Classifies one virtual ("b3") description string against its physical
/// parent into a [`VirtualButton`].
pub fn parse_b3_button_desc_xml_escaped(desc_xml_escaped: &str, parent_button: &PhysicalButton)
    -> (r: Result<VirtualButton, VkbReportError>)
    ensures
        ({
            let cs = desc_xml_escaped@;
            if vstd::utf8::is_ascii_chars(cs) {
                match b3_ids_spec(ascii_bytes(cs)) {
                    Ok(ids) => {
                        match virtual_kind_spec(parent_button@.kind, parent_button@.id, ids.1, ids.0) {
                            Some(k) => r == Ok::<VirtualButton, VkbReportError>(
                                VirtualButton { id: ids.1, kind: k },
                            ),
                            None => r == Err::<VirtualButton, VkbReportError>(
                                VkbReportError::InconsistentParentLink {
                                    virtual_id: ids.1,
                                    parent_id: parent_button@.id,
                                },
                            ),
                        }
                    },
                    Err(DescError::Unrecognized) => {
                        &&& r matches Err(VkbReportError::UnrecognizedDescription { desc })
                        &&& desc@ == cs
                    },
                    Err(DescError::Malformed(t)) => {
                        &&& r matches Err(VkbReportError::MalformedIdentifier { text })
                        &&& text@ == chars_of(t)
                    },
                }
            } else {
                &&& r matches Err(VkbReportError::UnrecognizedDescription { desc })
                &&& desc@ == cs
            }
        }),
{
    if !check_ascii(desc_xml_escaped) {
        return Err(
            VkbReportError::UnrecognizedDescription { desc: desc_xml_escaped.to_owned() },
        );
    }
    let bytes = str_bytes(desc_xml_escaped);
    proof {
        lemma_ascii_bytes_all(desc_xml_escaped@);
    }
    match b3_ids_bytes(bytes) {
        Err(DescFailure::Unrecognized) => Err(
            VkbReportError::UnrecognizedDescription { desc: desc_xml_escaped.to_owned() },
        ),
        Err(DescFailure::Malformed(t)) => Err(
            VkbReportError::MalformedIdentifier { text: ascii_to_string(t) },
        ),
        Ok(ids) => {
            let (physical_hint, virtual_id) = ids;
            let parent_id = *parent_button.get_id();
            let kind = match parent_button.get_kind() {
                PhysicalButtonKind::Momentary { shift } => match shift {
                    None => Some(VirtualButtonKind::Momentary(None)),
                    Some(ShiftKind::Shift1 { button_id_shift1 }) => {
                        if virtual_id == *button_id_shift1 {
                            Some(VirtualButtonKind::Momentary(Some(VirtualShiftKind::Shift1)))
                        } else if virtual_id == parent_id {
                            Some(VirtualButtonKind::Momentary(None))
                        } else {
                            None
                        }
                    },
                    Some(ShiftKind::Shift2 { button_id_shift2 }) => {
                        if virtual_id == *button_id_shift2 {
                            Some(VirtualButtonKind::Momentary(Some(VirtualShiftKind::Shift2)))
                        } else if virtual_id == parent_id {
                            Some(VirtualButtonKind::Momentary(None))
                        } else {
                            None
                        }
                    },
                    Some(ShiftKind::Shift12 { button_id_shift1, button_id_shift2 }) => {
                        if virtual_id == *button_id_shift1 {
                            Some(VirtualButtonKind::Momentary(Some(VirtualShiftKind::Shift1)))
                        } else if virtual_id == *button_id_shift2 {
                            Some(VirtualButtonKind::Momentary(Some(VirtualShiftKind::Shift2)))
                        } else if virtual_id == parent_id || physical_hint == parent_id {
                            Some(VirtualButtonKind::Momentary(None))
                        } else if physical_hint == *button_id_shift1 {
                            Some(VirtualButtonKind::Momentary(Some(VirtualShiftKind::Shift1)))
                        } else if physical_hint == *button_id_shift2 {
                            Some(VirtualButtonKind::Momentary(Some(VirtualShiftKind::Shift2)))
                        } else {
                            None
                        }
                    },
                },
                PhysicalButtonKind::Encoder => Some(VirtualButtonKind::Momentary(None)),
                PhysicalButtonKind::Tempo(TempoKind::Tempo2 { button_id_short, button_id_long }) => {
                    if virtual_id == *button_id_short {
                        Some(VirtualButtonKind::Tempo(VirtualTempoKind::Short))
                    } else if virtual_id == *button_id_long {
                        Some(VirtualButtonKind::Tempo(VirtualTempoKind::Long))
                    } else if virtual_id == parent_id || physical_hint == parent_id {
                        Some(VirtualButtonKind::Momentary(None))
                    } else {
                        None
                    }
                },
                PhysicalButtonKind::Tempo(
                    TempoKind::Tempo3 { button_id_short, button_id_long, button_id_double },
                ) => {
                    if virtual_id == *button_id_short {
                        Some(VirtualButtonKind::Tempo(VirtualTempoKind::Short))
                    } else if virtual_id == *button_id_long {
                        Some(VirtualButtonKind::Tempo(VirtualTempoKind::Long))
                    } else if virtual_id == *button_id_double {
                        Some(VirtualButtonKind::Tempo(VirtualTempoKind::Double))
                    } else if virtual_id == parent_id {
                        Some(VirtualButtonKind::Momentary(None))
                    } else if physical_hint == *button_id_short {
                        Some(VirtualButtonKind::Tempo(VirtualTempoKind::Short))
                    } else {
                        None
                    }
                },
                _ => None,
            };
            match kind {
                Some(k) => Ok(VirtualButton { id: virtual_id, kind: k }),
                None => Err(
                    VkbReportError::InconsistentParentLink {
                        virtual_id,
                        parent_id,
                    },
                ),
            }
        },
    }
}

/// Classifies one physical ("b2") description string into a
/// [`PhysicalButton`] with an empty user description.
pub fn parse_b2_button_desc_xml_escaped(desc_xml_escaped: &str) -> (r: Result<
    PhysicalButton,
    VkbReportError,
>)
    ensures
        ({
            let cs = desc_xml_escaped@;
            if vstd::utf8::is_ascii_chars(cs) {
                match parse_b2_spec(ascii_bytes(cs)) {
                    Ok(m) => {
                        &&& r matches Ok(b)
                        &&& b@ == (PhysicalButtonView {
                            id: m.id,
                            kind: m.kind,
                            info: chars_of(m.info),
                            extended_desc: chars_of(m.extended_desc),
                            user_desc: Seq::<char>::empty(),
                        })
                    },
                    Err(DescError::Unrecognized) => {
                        &&& r matches Err(VkbReportError::UnrecognizedDescription { desc })
                        &&& desc@ == cs
                    },
                    Err(DescError::Malformed(t)) => {
                        &&& r matches Err(VkbReportError::MalformedIdentifier { text })
                        &&& text@ == chars_of(t)
                    },
                }
            } else {
                &&& r matches Err(VkbReportError::UnrecognizedDescription { desc })
                &&& desc@ == cs
            }
        }),
{
    if !check_ascii(desc_xml_escaped) {
        return Err(
            VkbReportError::UnrecognizedDescription { desc: desc_xml_escaped.to_owned() },
        );
    }
    let bytes = str_bytes(desc_xml_escaped);
    proof {
        lemma_ascii_bytes_all(desc_xml_escaped@);
    }
    let norm = normalize_newlines_vec(bytes);
    proof {
        lemma_all_ascii_normalize(bytes@);
    }
    match split_desc(norm.as_slice()) {
        None => Err(
            VkbReportError::UnrecognizedDescription { desc: desc_xml_escaped.to_owned() },
        ),
        Some(parts) => {
            proof {
                lemma_desc_parts_ascii(norm@);
            }
            let (bolds, texts_raw) = parts;
            if bolds.len() == 0 {
                return Err(
                    VkbReportError::UnrecognizedDescription {
                        desc: desc_xml_escaped.to_owned(),
                    },
                );
            }
            proof {
                assert(bolds.deep_view()[0] == bolds@[0]@);
            }
            match id_info_bytes(bolds[0].as_slice()) {
                Err(DescFailure::Unrecognized) => Err(
                    VkbReportError::UnrecognizedDescription {
                        desc: desc_xml_escaped.to_owned(),
                    },
                ),
                Err(DescFailure::Malformed(t)) => Err(
                    VkbReportError::MalformedIdentifier { text: ascii_to_string(t) },
                ),
                Ok(idinfo) => {
                    if bolds.len() != 2 {
                        return Err(
                            VkbReportError::UnrecognizedDescription {
                                desc: desc_xml_escaped.to_owned(),
                            },
                        );
                    }
                    let ghost spec_texts = Seq::new(
                        texts_raw.deep_view().len(),
                        |i: int| remove_first_lf(trim_seq(texts_raw.deep_view()[i])),
                    );
                    proof {
                        assert forall|k: int| 0 <= k < texts_raw@.len() implies all_ascii(
                            #[trigger] texts_raw@[k]@,
                        ) by {
                            assert(texts_raw.deep_view()[k] =~= texts_raw@[k]@);
                        }
                    }
                    let mut texts: Vec<Vec<u8>> = Vec::new();
                    proof {
                        assert(texts.deep_view() =~~= spec_texts.subrange(0, 0));
                    }
                    let tlen = texts_raw.len();
                    let mut i: usize = 0;
                    while i < tlen
                        invariant
                            texts_raw@.len() == tlen,
                            0 <= i <= tlen,
                            spec_texts == Seq::new(
                                texts_raw.deep_view().len(),
                                |k: int| remove_first_lf(trim_seq(texts_raw.deep_view()[k])),
                            ),
                            texts.deep_view() =~= spec_texts.subrange(0, i as int),
                            forall|k: int|
                                0 <= k < texts_raw@.len() ==> all_ascii(
                                    #[trigger] texts_raw@[k]@,
                                ),
                            forall|k: int|
                                0 <= k < texts@.len() ==> all_ascii(#[trigger] texts@[k]@),
                        decreases tlen - i,
                    {
                        let t = trim_bytes(texts_raw[i].as_slice());
                        let t2 = remove_first_lf_vec(t.as_slice());
                        proof {
                            lemma_all_ascii_trim(texts_raw@[i as int]@);
                            lemma_all_ascii_remove_first_lf(t@);
                            assert(texts_raw.deep_view()[i as int] =~= texts_raw@[i as int]@);
                        }
                        let ghost pre_dv = texts.deep_view();
                        let ghost pre_texts = texts@;
                        proof {
                            assert(pre_dv.len() == texts@.len());
                            assert(texts@.len() == i);
                        }
                        texts.push(t2);
                        proof {
                            assert(t2.deep_view() =~= t2@);
                            assert(t2@ == spec_texts[i as int]);
                            assert(texts@.len() == i + 1);
                            let dv = texts.deep_view();
                            let sv = spec_texts.subrange(0, i as int + 1);
                            assert forall|k: int| 0 <= k < dv.len() implies dv[k] == sv[k] by {
                                assert(dv[k] == texts@[k].deep_view());
                                if k < i as int {
                                    assert(texts@[k] == pre_texts[k]);
                                    assert(pre_dv[k] == pre_texts[k].deep_view());
                                    assert(dv[k] == pre_dv[k]);
                                } else {
                                    assert(texts@[k] == t2);
                                    assert(dv[k] == t2.deep_view());
                                }
                            }
                            assert(dv =~= sv);
                        }
                        i += 1;
                    }
                    proof {
                        assert(spec_texts.subrange(0, tlen as int) =~= spec_texts);
                        assert(texts.deep_view() =~~= spec_texts);
                    }
                    if texts.len() > 2 {
                        return Err(
                            VkbReportError::UnrecognizedDescription {
                                desc: desc_xml_escaped.to_owned(),
                            },
                        );
                    }
                    proof {
                        assert(bolds.deep_view()[1] == bolds@[1]@);
                    }
                    match classify_kind(bolds[1].as_slice(), &texts) {
                        Err(DescFailure::Unrecognized) => Err(
                            VkbReportError::UnrecognizedDescription {
                                desc: desc_xml_escaped.to_owned(),
                            },
                        ),
                        Err(DescFailure::Malformed(t)) => Err(
                            VkbReportError::MalformedIdentifier { text: ascii_to_string(t) },
                        ),
                        Ok(kind) => {
                            let (id, info) = idinfo;
                            let extended = ascii_to_string(
                                vstd::slice::slice_to_vec(bolds[1].as_slice()),
                            );
                            Ok(
                                PhysicalButton::new(
                                    id,
                                    kind,
                                    ascii_to_string(info),
                                    extended,
                                    String::new(),
                                ),
                            )
                        },
                    }
                },
            }
        },
    }
}




/// The marker phrase before a tempo short-press id.
pub open spec fn short_pat() -> Seq<u8> {
    ascii_bytes("Virtual button Short #"@)
}

/// The marker phrase before a tempo long-press id.
pub open spec fn long_pat() -> Seq<u8> {
    ascii_bytes("Virtual button Long #"@)
}

/// The marker phrase before a tempo double-press id.
pub open spec fn double_pat() -> Seq<u8> {
    ascii_bytes("Virtual button Double Short #"@)
}

/// Law: a tempo free text naming a short virtual id and a long virtual id,
/// in the canonical form the splitter hands over, classifies as the
/// two-press tempo kind with exactly those identifiers.
pub proof fn lemma_tempo_short_long_classification(sd: Seq<u8>, ld: Seq<u8>)
    requires
        (parse_u8_spec(sd) is Some),
        (parse_u8_spec(ld) is Some),
    ensures
        ({
            tempo_kind_spec(short_pat() + sd + long_pat() + ld)
                == Ok::<PhysicalButtonKindView, DescError>(
                PhysicalButtonKindView::Tempo(
                    (TempoKind::Tempo2 {
                        button_id_short: parse_u8_spec(sd)->Some_0,
                        button_id_long: parse_u8_spec(ld)->Some_0,
                    }),
                ),
            )
        }),
{
    reveal_strlit("Virtual button Short #");
    reveal_strlit("Virtual button Long #");
    reveal_strlit("Virtual button Double Short #");
    let sp = short_pat();
    let lp = long_pat();
    let dp = double_pat();
    let text = sp + sd + lp + ld;
    let sl = sd.len() as int;
    let ll = ld.len() as int;
    let pos2 = 22 + sl;
    assert(sp.len() == 22 && lp.len() == 21 && dp.len() == 29);
    assert(sp[0] == 86u8 && lp[0] == 86u8 && dp[0] == 86u8);
    assert(sp[15] == 83u8 && lp[15] == 76u8 && dp[15] == 68u8);
    assert(forall|i: int| 1 <= i < 22 ==> sp[i] != 86u8);
    assert(forall|i: int| 1 <= i < 21 ==> lp[i] != 86u8);
    assert(text.len() == 22 + sl + 21 + ll);
    assert forall|i: int| 0 <= i < text.len() implies #[trigger] text[i] == (
        if i < 22 {
            sp[i]
        } else if i < 22 + sl {
            sd[i - 22]
        } else if i < pos2 + 21 {
            lp[i - pos2]
        } else {
            ld[i - pos2 - 21]
        }
    ) by {}
    assert forall|i: int| 0 <= i < text.len() && #[trigger] text[i] == 86u8 implies (i == 0
        || i == pos2) by {
        if 22 <= i < pos2 {
            assert(is_digit(sd[i - 22]));
        } else if i >= pos2 + 21 {
            assert(is_digit(ld[i - pos2 - 21]));
        }
    }
    assert(match_at(text, sp, 0)) by {
        assert(text.subrange(0, 22) =~= sp);
    }
    assert(match_at(text, lp, pos2)) by {
        assert(text.subrange(pos2, pos2 + 21) =~= lp);
    }
    assert forall|k: int| k != 0 implies !match_at(text, sp, k) by {
        if 0 <= k && k + 22 <= text.len() {
            if match_at(text, sp, k) {
                lemma_match_byte(text, sp, k, 0);
                assert(k == pos2);
                lemma_match_byte(text, sp, k, 15);
            }
        } else {
            lemma_no_match_without_head(text, sp, k);
        }
    }
    assert forall|k: int| k != pos2 implies !match_at(text, lp, k) by {
        if 0 <= k && k + 21 <= text.len() {
            if match_at(text, lp, k) {
                lemma_match_byte(text, lp, k, 0);
                assert(k == 0);
                lemma_match_byte(text, lp, k, 15);
            }
        } else {
            lemma_no_match_without_head(text, lp, k);
        }
    }
    assert forall|k: int| !match_at(text, dp, k) by {
        if 0 <= k && k + 29 <= text.len() {
            if match_at(text, dp, k) {
                lemma_match_byte(text, dp, k, 0);
                lemma_match_byte(text, dp, k, 15);
            }
        } else {
            lemma_no_match_without_head(text, dp, k);
        }
    }
    lemma_find_at(text, sp, 0);
    lemma_find_at(text, lp, pos2);
    assert(find_pat(text, dp) is None) by {
        lemma_find_from(text, dp, 0);
        if find_pat(text, dp) is Some {
            let j = find_pat(text, dp)->Some_0;
            assert(match_at(text, dp, j));
        }
    }
    lemma_find_last_at(text, sp, 0);
    let after_sp = after_last(text, sp);
    assert(after_sp =~= sd + lp + ld);
    assert(match_at(after_sp, lp, sl)) by {
        assert(after_sp.subrange(sl, sl + 21) =~= lp);
    }
    assert forall|k: int| 0 <= k < sl implies !match_at(after_sp, lp, k) by {
        if match_at(after_sp, lp, k) {
            lemma_match_byte(after_sp, lp, k, 0);
            assert(after_sp[k] == sd[k]);
            assert(is_digit(sd[k]));
        }
    }
    lemma_find_at(after_sp, lp, sl);
    assert(before_first(after_sp, lp) =~= sd);
    lemma_find_last_at(text, lp, pos2);
    assert(after_last(text, lp) =~= ld);
}

/// Law: a tempo free text naming a short, a long and a double-press
/// virtual id, in the canonical form the splitter hands over, classifies as
/// the three-press tempo kind with exactly those identifiers.
pub proof fn lemma_tempo_with_double_classification(sd: Seq<u8>, ld: Seq<u8>, dd: Seq<u8>)
    requires
        (parse_u8_spec(sd) is Some),
        (parse_u8_spec(ld) is Some),
        (parse_u8_spec(dd) is Some),
    ensures
        ({
            tempo_kind_spec(
                short_pat() + sd + long_pat() + ld + seq![10u8] + double_pat() + dd,
            ) == Ok::<PhysicalButtonKindView, DescError>(
                PhysicalButtonKindView::Tempo(
                    (TempoKind::Tempo3 {
                        button_id_short: parse_u8_spec(sd)->Some_0,
                        button_id_long: parse_u8_spec(ld)->Some_0,
                        button_id_double: parse_u8_spec(dd)->Some_0,
                    }),
                ),
            )
        }),
{
    reveal_strlit("Virtual button Short #");
    reveal_strlit("Virtual button Long #");
    reveal_strlit("Virtual button Double Short #");
    let sp = short_pat();
    let lp = long_pat();
    let dp = double_pat();
    let text = sp + sd + lp + ld + seq![10u8] + dp + dd;
    let sl = sd.len() as int;
    let ll = ld.len() as int;
    let dl = dd.len() as int;
    let pos2 = 22 + sl;
    let posn = pos2 + 21 + ll;
    let pos3 = posn + 1;
    assert(sp.len() == 22 && lp.len() == 21 && dp.len() == 29);
    assert(sp[0] == 86u8 && lp[0] == 86u8 && dp[0] == 86u8);
    assert(sp[15] == 83u8 && lp[15] == 76u8 && dp[15] == 68u8);
    assert(forall|i: int| 1 <= i < 22 ==> sp[i] != 86u8);
    assert(forall|i: int| 1 <= i < 21 ==> lp[i] != 86u8);
    assert(forall|i: int| 1 <= i < 29 ==> dp[i] != 86u8);
    assert(text.len() == pos3 + 29 + dl);
    assert forall|i: int| 0 <= i < text.len() implies #[trigger] text[i] == (
        if i < 22 {
            sp[i]
        } else if i < pos2 {
            sd[i - 22]
        } else if i < pos2 + 21 {
            lp[i - pos2]
        } else if i < posn {
            ld[i - pos2 - 21]
        } else if i == posn {
            10u8
        } else if i < pos3 + 29 {
            dp[i - pos3]
        } else {
            dd[i - pos3 - 29]
        }
    ) by {}
    assert forall|i: int| 0 <= i < text.len() && #[trigger] text[i] == 86u8 implies (i == 0
        || i == pos2 || i == pos3) by {
        if 22 <= i < pos2 {
            assert(is_digit(sd[i - 22]));
        } else if pos2 + 21 <= i < posn {
            assert(is_digit(ld[i - pos2 - 21]));
        } else if i >= pos3 + 29 {
            assert(is_digit(dd[i - pos3 - 29]));
        }
    }
    assert(match_at(text, sp, 0)) by {
        assert(text.subrange(0, 22) =~= sp);
    }
    assert(match_at(text, lp, pos2)) by {
        assert(text.subrange(pos2, pos2 + 21) =~= lp);
    }
    assert(match_at(text, dp, pos3)) by {
        assert(text.subrange(pos3, pos3 + 29) =~= dp);
    }
    assert forall|k: int| k != 0 implies !match_at(text, sp, k) by {
        if 0 <= k && k + 22 <= text.len() {
            if match_at(text, sp, k) {
                lemma_match_byte(text, sp, k, 0);
                lemma_match_byte(text, sp, k, 15);
            }
        } else {
            lemma_no_match_without_head(text, sp, k);
        }
    }
    assert forall|k: int| k != pos2 implies !match_at(text, lp, k) by {
        if 0 <= k && k + 21 <= text.len() {
            if match_at(text, lp, k) {
                lemma_match_byte(text, lp, k, 0);
                lemma_match_byte(text, lp, k, 15);
            }
        } else {
            lemma_no_match_without_head(text, lp, k);
        }
    }
    assert forall|k: int| k != pos3 implies !match_at(text, dp, k) by {
        if 0 <= k && k + 29 <= text.len() {
            if match_at(text, dp, k) {
                lemma_match_byte(text, dp, k, 0);
                lemma_match_byte(text, dp, k, 15);
            }
        } else {
            lemma_no_match_without_head(text, dp, k);
        }
    }
    lemma_find_at(text, sp, 0);
    lemma_find_at(text, lp, pos2);
    lemma_find_at(text, dp, pos3);
    lemma_find_last_at(text, sp, 0);
    lemma_find_last_at(text, lp, pos2);
    lemma_find_last_at(text, dp, pos3);
    // Short id: between the short marker and the first long marker.
    let after_sp = after_last(text, sp);
    assert(after_sp =~= sd + lp + ld + seq![10u8] + dp + dd);
    assert(match_at(after_sp, lp, sl)) by {
        assert(after_sp.subrange(sl, sl + 21) =~= lp);
    }
    assert forall|k: int| 0 <= k < sl implies !match_at(after_sp, lp, k) by {
        if match_at(after_sp, lp, k) {
            lemma_match_byte(after_sp, lp, k, 0);
            assert(after_sp[k] == sd[k]);
            assert(is_digit(sd[k]));
        }
    }
    lemma_find_at(after_sp, lp, sl);
    assert(before_first(after_sp, lp) =~= sd);
    // Long id: after the long marker, before the double marker, line feeds
    // removed.
    let after_lp = after_last(text, lp);
    assert(after_lp =~= ld + seq![10u8] + dp + dd);
    assert(match_at(after_lp, dp, ll + 1)) by {
        assert(after_lp.subrange(ll + 1, ll + 1 + 29) =~= dp);
    }
    assert forall|k: int| 0 <= k < ll + 1 implies !match_at(after_lp, dp, k) by {
        if match_at(after_lp, dp, k) {
            lemma_match_byte(after_lp, dp, k, 0);
            if k < ll {
                assert(after_lp[k] == ld[k]);
                assert(is_digit(ld[k]));
            } else {
                assert(after_lp[k] == 10u8);
            }
        }
    }
    lemma_find_at(after_lp, dp, ll + 1);
    assert(before_first(after_lp, dp) =~= ld + seq![10u8]);
    lemma_remove_all_lf_concat(ld, seq![10u8]);
    lemma_remove_all_lf_id(ld);
    assert(remove_all_lf(seq![10u8]) =~= Seq::<u8>::empty()) by {
        assert(seq![10u8][0] == 10u8);
        assert(seq![10u8].skip(1) =~= Seq::<u8>::empty());
        assert(remove_all_lf(Seq::<u8>::empty()) =~= Seq::<u8>::empty());
    }
    assert(remove_all_lf(ld + seq![10u8]) == ld) by {
        assert(ld + Seq::<u8>::empty() =~= ld);
    }
    // Double id: after the double marker.
    assert(after_last(text, dp) =~= dd);
}

/// The keyword of a button with momentary action.
pub open spec fn momentary_pat() -> Seq<u8> {
    ascii_bytes("- Button with momentary action"@)
}

/// Law: every description of the momentary, no-modifier form, an
/// identifier and a label inside the first bold element and the momentary
/// keyword inside the second, classifies as a momentary button with no
/// shift, the parsed identifier, and the trimmed label.
#[verifier::rlimit(100)]
pub proof fn lemma_momentary_classification(digits: Seq<u8>, info: Seq<u8>)
    requires
        (parse_u8_spec(digits) is Some),
        forall|i: int| 0 <= i < info.len() ==> #[trigger] info[i] != 60u8 && info[i] != 13u8,
    ensures
        ({
            parse_b2_spec(
                crate::text::open_tag() + seq![35u8] + digits + seq![32u8] + info
                    + crate::text::close_tag() + crate::text::open_tag() + momentary_pat()
                    + crate::text::close_tag(),
            ) == Ok::<PhysModel, DescError>(
                (PhysModel {
                    id: parse_u8_spec(digits)->Some_0,
                    kind: (PhysicalButtonKindView::Momentary { shift: None }),
                    info: trim_seq(info),
                    extended_desc: momentary_pat(),
                }),
            )
        }),
{
    reveal_strlit("- Button with momentary action");
    reveal_strlit("TEMPO");
    reveal_strlit("Encoder");
    reveal_strlit("Button with momentary action");
    let ot = crate::text::open_tag();
    let ct = crate::text::close_tag();
    let mp = momentary_pat();
    let dl = digits.len() as int;
    let il = info.len() as int;
    let inner = seq![35u8] + digits + seq![32u8] + info;
    let n1 = 2 + dl + il;
    let desc = ot + inner + ct + ot + mp + ct;
    let pc1 = 3 + n1;
    let po2 = pc1 + 4;
    let pm = po2 + 3;
    let pc2 = pm + 30;
    assert(mp.len() == 30);
    assert(inner.len() == n1);
    assert(desc.len() == pc2 + 4);
    assert(forall|i: int| 0 <= i < 30 ==> mp[i] != 60u8);
    assert(forall|i: int| 0 <= i < 30 ==> mp[i] != 13u8);
    assert(forall|i: int| 0 <= i < 30 ==> mp[i] != 84u8);
    assert(forall|i: int| 0 <= i < 30 ==> mp[i] != 69u8);
    assert forall|i: int| 0 <= i < desc.len() implies #[trigger] desc[i] == (
        if i < 3 {
            ot[i]
        } else if i < pc1 {
            inner[i - 3]
        } else if i < po2 {
            ct[i - pc1]
        } else if i < pm {
            ot[i - po2]
        } else if i < pc2 {
            mp[i - pm]
        } else {
            ct[i - pc2]
        }
    ) by {}
    assert forall|i: int| 0 <= i < inner.len() implies #[trigger] inner[i] != 60u8 && inner[i]
        != 13u8 && inner[i] != 10u8 || (inner[i] == 10u8) by {
        if 1 <= i < 1 + dl {
            assert(inner[i] == digits[i - 1]);
            assert(is_digit(digits[i - 1]));
        } else if i >= 2 + dl {
            assert(inner[i] == info[i - 2 - dl]);
        }
    }
    assert forall|i: int| 0 <= i < inner.len() implies #[trigger] inner[i] != 60u8 && inner[i]
        != 13u8 by {
        if 1 <= i < 1 + dl {
            assert(is_digit(digits[i - 1]));
        } else if i >= 2 + dl {
            assert(inner[i] == info[i - 2 - dl]);
        }
    }
    // No carriage return anywhere: canonicalising newlines is the identity.
    assert forall|i: int| 0 <= i < desc.len() implies #[trigger] desc[i] != 13u8 by {}
    lemma_normalize_no_cr(desc);
    // The byte of an opening angle bracket stands exactly at the tags.
    assert forall|i: int| 0 <= i < desc.len() && #[trigger] desc[i] == 60u8 implies (i == 0
        || i == pc1 || i == po2 || i == pc2) by {}
    // The description splits into exactly the two bold segments.
    assert(match_at(desc, ot, 0)) by {
        assert(desc.subrange(0, 3) =~= ot);
    }
    lemma_find_at(desc, ot, 0);
    assert(desc.subrange(0, 0) =~= Seq::<u8>::empty());
    assert(find_pat(Seq::<u8>::empty(), ct) is None);
    let rest = desc.subrange(3, desc.len() as int);
    assert(rest =~= inner + ct + ot + mp + ct);
    assert(match_at(rest, ct, n1)) by {
        assert(rest.subrange(n1, n1 + 4) =~= ct);
    }
    assert forall|k: int| 0 <= k < n1 implies !match_at(rest, ct, k) by {
        if match_at(rest, ct, k) {
            lemma_match_byte(rest, ct, k, 0);
            assert(rest[k] == inner[k]);
        }
    }
    lemma_find_at(rest, ct, n1);
    let content = rest.subrange(0, n1);
    assert(content =~= inner);
    assert forall|k: int| !match_at(inner, ot, k) by {
        if 0 <= k && k + 3 <= inner.len() {
            if match_at(inner, ot, k) {
                lemma_match_byte(inner, ot, k, 0);
            }
        } else {
            lemma_no_match_without_head(inner, ot, k);
        }
    }
    assert(find_pat(inner, ot) is None) by {
        lemma_find_from(inner, ot, 0);
        if find_pat(inner, ot) is Some {
            let j = find_pat(inner, ot)->Some_0;
            assert(match_at(inner, ot, j));
        }
    }
    let after = rest.subrange(n1 + 4, rest.len() as int);
    assert(after =~= ot + mp + ct);
    // The second bold segment.
    assert(match_at(after, ot, 0)) by {
        assert(after.subrange(0, 3) =~= ot);
    }
    lemma_find_at(after, ot, 0);
    let rest2 = after.subrange(3, after.len() as int);
    assert(rest2 =~= mp + ct);
    assert(match_at(rest2, ct, 30)) by {
        assert(rest2.subrange(30, 34) =~= ct);
    }
    assert forall|k: int| 0 <= k < 30 implies !match_at(rest2, ct, k) by {
        if match_at(rest2, ct, k) {
            lemma_match_byte(rest2, ct, k, 0);
            assert(rest2[k] == mp[k]);
        }
    }
    lemma_find_at(rest2, ct, 30);
    let content2 = rest2.subrange(0, 30);
    assert(content2 =~= mp);
    assert forall|k: int| !match_at(mp, ot, k) by {
        if 0 <= k && k + 3 <= mp.len() {
            if match_at(mp, ot, k) {
                lemma_match_byte(mp, ot, k, 0);
            }
        } else {
            lemma_no_match_without_head(mp, ot, k);
        }
    }
    assert(find_pat(mp, ot) is None) by {
        lemma_find_from(mp, ot, 0);
        if find_pat(mp, ot) is Some {
            let j = find_pat(mp, ot)->Some_0;
            assert(match_at(mp, ot, j));
        }
    }
    let after2 = rest2.subrange(34, rest2.len() as int);
    assert(after2 =~= Seq::<u8>::empty());
    assert(find_pat(after2, ot) is None);
    assert(find_pat(after2, ct) is None);
    assert(tail_parts(after2) == Some((Seq::<Seq<u8>>::empty(), Seq::<Seq<u8>>::empty())));
    assert(tail_parts(after) == Some((seq![mp], Seq::<Seq<u8>>::empty()))) by {
        assert(seq![content2] + Seq::<Seq<u8>>::empty() =~= seq![mp]);
        assert(after.subrange(0, 0).len() == 0);
        assert(Seq::<Seq<u8>>::empty() + Seq::<Seq<u8>>::empty()
            =~= Seq::<Seq<u8>>::empty());
        assert(after.subrange(3, after.len() as int).subrange(
            34,
            after.subrange(3, after.len() as int).len() as int,
        ) =~= after2);
    }
    assert(desc_parts(desc) == Some((seq![inner, mp], Seq::<Seq<u8>>::empty()))) by {
        assert(rest.subrange(n1 + 4, rest.len() as int) =~= after);
        assert(desc.subrange(0, desc.len() as int) =~= desc);
        assert(seq![content] + seq![mp] =~= seq![inner, mp]);
        assert(desc.subrange(0, 0).len() == 0);
    }
    // The head of the first bold segment: the identifier and the label.
    assert(inner[0] == 35u8);
    let rest_i = inner.skip(1);
    assert(rest_i =~= digits + seq![32u8] + info);
    assert(match_at(rest_i, seq![32u8], dl)) by {
        assert(rest_i.subrange(dl, dl + 1) =~= seq![32u8]);
    }
    assert forall|k: int| 0 <= k < dl implies !match_at(rest_i, seq![32u8], k) by {
        if match_at(rest_i, seq![32u8], k) {
            lemma_match_byte(rest_i, seq![32u8], k, 0);
            assert(rest_i[k] == digits[k]);
            assert(is_digit(digits[k]));
        }
    }
    lemma_find_at(rest_i, seq![32u8], dl);
    assert(rest_i.subrange(0, dl) =~= digits);
    assert(rest_i.subrange(dl + 1, rest_i.len() as int) =~= info);
    assert(id_info_spec(inner) == Ok::<(u8, Seq<u8>), DescError>(
        (parse_u8_spec(digits)->Some_0, trim_seq(info)),
    ));
    // The keyword selects the momentary kind: it holds neither the tempo
    // nor the encoder keyword, and holds the momentary one.
    let tp = ascii_bytes("TEMPO"@);
    let ep = ascii_bytes("Encoder"@);
    let bp = ascii_bytes("Button with momentary action"@);
    assert(tp.len() == 5 && ep.len() == 7 && bp.len() == 28);
    assert(tp[0] == 84u8 && ep[0] == 69u8);
    assert forall|k: int| !match_at(mp, tp, k) by {
        if 0 <= k && k + 5 <= 30 {
            if match_at(mp, tp, k) {
                lemma_match_byte(mp, tp, k, 0);
            }
        } else {
            lemma_no_match_without_head(mp, tp, k);
        }
    }
    assert(find_pat(mp, tp) is None) by {
        lemma_find_from(mp, tp, 0);
        if find_pat(mp, tp) is Some {
            let j = find_pat(mp, tp)->Some_0;
            assert(match_at(mp, tp, j));
        }
    }
    assert forall|k: int| !match_at(mp, ep, k) by {
        if 0 <= k && k + 7 <= 30 {
            if match_at(mp, ep, k) {
                lemma_match_byte(mp, ep, k, 0);
            }
        } else {
            lemma_no_match_without_head(mp, ep, k);
        }
    }
    assert(find_pat(mp, ep) is None) by {
        lemma_find_from(mp, ep, 0);
        if find_pat(mp, ep) is Some {
            let j = find_pat(mp, ep)->Some_0;
            assert(match_at(mp, ep, j));
        }
    }
    assert(match_at(mp, bp, 2)) by {
        assert(mp.subrange(2, 30) =~= bp);
    }
    lemma_find_from(mp, bp, 0);
    assert(contains_pat(mp, bp)) by {
        if find_pat(mp, bp) is None {
            assert(!match_at(mp, bp, 2));
        }
    }
    // Assemble the classification.
    assert(normalize_newlines(desc) == desc);
    let parts = desc_parts(normalize_newlines(desc))->Some_0;
    assert(parts.0 == seq![inner, mp]);
    assert(parts.1 =~= Seq::<Seq<u8>>::empty());
    assert(parts.0[0] == inner);
    assert(parts.0[1] == mp);
    assert(parts.0.len() == 2);
    let spec_texts = Seq::new(parts.1.len(), |i: int| remove_first_lf(trim_seq(parts.1[i])));
    assert(spec_texts.len() == 0);
    assert(momentary_kind_spec(spec_texts) == Ok::<PhysicalButtonKindView, DescError>(
        (PhysicalButtonKindView::Momentary { shift: None }),
    ));
    assert(kind_spec(mp, spec_texts) == Ok::<PhysicalButtonKindView, DescError>(
        (PhysicalButtonKindView::Momentary { shift: None }),
    ));
    let desc_flat = ot + seq![35u8] + digits + seq![32u8] + info + ct + ot + mp + ct;
    assert(desc_flat =~= desc);
}


/// The keyword of a tempo button.
pub open spec fn tempo_kw() -> Seq<u8> {
    ascii_bytes("TEMPO "@)
}

/// A tempo description splits into its identifier head, the tempo keyword,
/// and one raw free text; classification then goes entirely through the
/// tempo rules on the canonicalised free text.
#[verifier::rlimit(100)]
proof fn lemma_tempo_desc_split(digits: Seq<u8>, info: Seq<u8>, raw: Seq<u8>)
    requires
        (parse_u8_spec(digits) is Some),
        forall|i: int| 0 <= i < info.len() ==> #[trigger] info[i] != 60u8 && info[i] != 13u8,
        raw.len() > 0,
        forall|i: int| 0 <= i < raw.len() ==> #[trigger] raw[i] != 60u8 && raw[i] != 13u8,
    ensures
        ({
            parse_b2_spec(
                crate::text::open_tag() + seq![35u8] + digits + seq![32u8] + info
                    + crate::text::close_tag() + crate::text::open_tag() + tempo_kw()
                    + crate::text::close_tag() + raw,
            ) == (match tempo_kind_spec(remove_first_lf(trim_seq(raw))) {
                Ok(k) => Ok::<PhysModel, DescError>(
                    (PhysModel {
                        id: parse_u8_spec(digits)->Some_0,
                        kind: k,
                        info: trim_seq(info),
                        extended_desc: tempo_kw(),
                    }),
                ),
                Err(e) => Err::<PhysModel, DescError>(e),
            })
        }),
{
    reveal_strlit("TEMPO ");
    reveal_strlit("TEMPO");
    let ot = crate::text::open_tag();
    let ct = crate::text::close_tag();
    let kw = tempo_kw();
    let dl = digits.len() as int;
    let il = info.len() as int;
    let inner = seq![35u8] + digits + seq![32u8] + info;
    let n1 = 2 + dl + il;
    let desc = ot + inner + ct + ot + kw + ct + raw;
    let pc1 = 3 + n1;
    let po2 = pc1 + 4;
    let pk = po2 + 3;
    let pc2 = pk + 6;
    let pr = pc2 + 4;
    assert(kw.len() == 6);
    assert(inner.len() == n1);
    assert(desc.len() == pr + raw.len());
    assert(forall|i: int| 0 <= i < 6 ==> kw[i] != 60u8 && kw[i] != 13u8);
    assert forall|i: int| 0 <= i < inner.len() implies #[trigger] inner[i] != 60u8 && inner[i]
        != 13u8 by {
        if 1 <= i < 1 + dl {
            assert(is_digit(digits[i - 1]));
        } else if i >= 2 + dl {
            assert(inner[i] == info[i - 2 - dl]);
        }
    }
    assert forall|i: int| 0 <= i < desc.len() implies #[trigger] desc[i] == (
        if i < 3 {
            ot[i]
        } else if i < pc1 {
            inner[i - 3]
        } else if i < po2 {
            ct[i - pc1]
        } else if i < pk {
            ot[i - po2]
        } else if i < pc2 {
            kw[i - pk]
        } else if i < pr {
            ct[i - pc2]
        } else {
            raw[i - pr]
        }
    ) by {}
    assert forall|i: int| 0 <= i < desc.len() implies #[trigger] desc[i] != 13u8 by {}
    lemma_normalize_no_cr(desc);
    assert forall|i: int| 0 <= i < desc.len() && #[trigger] desc[i] == 60u8 implies (i == 0
        || i == pc1 || i == po2 || i == pc2) by {}
    assert(match_at(desc, ot, 0)) by {
        assert(desc.subrange(0, 3) =~= ot);
    }
    lemma_find_at(desc, ot, 0);
    assert(desc.subrange(0, 0) =~= Seq::<u8>::empty());
    assert(find_pat(Seq::<u8>::empty(), ct) is None);
    let rest = desc.subrange(3, desc.len() as int);
    assert(rest =~= inner + ct + ot + kw + ct + raw);
    assert(match_at(rest, ct, n1)) by {
        assert(rest.subrange(n1, n1 + 4) =~= ct);
    }
    assert forall|k: int| 0 <= k < n1 implies !match_at(rest, ct, k) by {
        if match_at(rest, ct, k) {
            lemma_match_byte(rest, ct, k, 0);
            assert(rest[k] == inner[k]);
        }
    }
    lemma_find_at(rest, ct, n1);
    let content = rest.subrange(0, n1);
    assert(content =~= inner);
    assert forall|k: int| !match_at(inner, ot, k) by {
        if 0 <= k && k + 3 <= inner.len() {
            if match_at(inner, ot, k) {
                lemma_match_byte(inner, ot, k, 0);
            }
        } else {
            lemma_no_match_without_head(inner, ot, k);
        }
    }
    assert(find_pat(inner, ot) is None) by {
        lemma_find_from(inner, ot, 0);
        if find_pat(inner, ot) is Some {
            let j = find_pat(inner, ot)->Some_0;
            assert(match_at(inner, ot, j));
        }
    }
    let after = rest.subrange(n1 + 4, rest.len() as int);
    assert(after =~= ot + kw + ct + raw);
    assert(match_at(after, ot, 0)) by {
        assert(after.subrange(0, 3) =~= ot);
    }
    lemma_find_at(after, ot, 0);
    let rest2 = after.subrange(3, after.len() as int);
    assert(rest2 =~= kw + ct + raw);
    assert(match_at(rest2, ct, 6)) by {
        assert(rest2.subrange(6, 10) =~= ct);
    }
    assert forall|k: int| 0 <= k < 6 implies !match_at(rest2, ct, k) by {
        if match_at(rest2, ct, k) {
            lemma_match_byte(rest2, ct, k, 0);
            assert(rest2[k] == kw[k]);
        }
    }
    lemma_find_at(rest2, ct, 6);
    let content2 = rest2.subrange(0, 6);
    assert(content2 =~= kw);
    assert forall|k: int| !match_at(kw, ot, k) by {
        if 0 <= k && k + 3 <= kw.len() {
            if match_at(kw, ot, k) {
                lemma_match_byte(kw, ot, k, 0);
            }
        } else {
            lemma_no_match_without_head(kw, ot, k);
        }
    }
    assert(find_pat(kw, ot) is None) by {
        lemma_find_from(kw, ot, 0);
        if find_pat(kw, ot) is Some {
            let j = find_pat(kw, ot)->Some_0;
            assert(match_at(kw, ot, j));
        }
    }
    let after2 = rest2.subrange(10, rest2.len() as int);
    assert(after2 =~= raw);
    assert forall|k: int| !match_at(raw, ot, k) && !match_at(raw, ct, k) by {
        if 0 <= k && k + 3 <= raw.len() {
            if match_at(raw, ot, k) {
                lemma_match_byte(raw, ot, k, 0);
            }
        } else {
            lemma_no_match_without_head(raw, ot, k);
        }
        if 0 <= k && k + 4 <= raw.len() {
            if match_at(raw, ct, k) {
                lemma_match_byte(raw, ct, k, 0);
            }
        } else {
            lemma_no_match_without_head(raw, ct, k);
        }
    }
    assert(find_pat(raw, ot) is None) by {
        lemma_find_from(raw, ot, 0);
        if find_pat(raw, ot) is Some {
            let j = find_pat(raw, ot)->Some_0;
            assert(match_at(raw, ot, j));
        }
    }
    assert(find_pat(raw, ct) is None) by {
        lemma_find_from(raw, ct, 0);
        if find_pat(raw, ct) is Some {
            let j = find_pat(raw, ct)->Some_0;
            assert(match_at(raw, ct, j));
        }
    }
    assert(tail_parts(raw) == Some((Seq::<Seq<u8>>::empty(), seq![raw])));
    assert(tail_parts(after) == Some((seq![kw], seq![raw]))) by {
        assert(seq![content2] + Seq::<Seq<u8>>::empty() =~= seq![kw]);
        assert(after.subrange(0, 0).len() == 0);
        assert(Seq::<Seq<u8>>::empty() + seq![raw] =~= seq![raw]);
        assert(after.subrange(3, after.len() as int).subrange(
            10,
            after.subrange(3, after.len() as int).len() as int,
        ) =~= after2);
    }
    assert(desc_parts(desc) == Some((seq![inner, kw], seq![raw]))) by {
        assert(rest.subrange(n1 + 4, rest.len() as int) =~= after);
        assert(desc.subrange(0, desc.len() as int) =~= desc);
        assert(seq![content] + seq![kw] =~= seq![inner, kw]);
        assert(desc.subrange(0, 0).len() == 0);
        assert(seq![] + seq![raw] =~= seq![raw]);
    }
    assert(inner[0] == 35u8);
    let rest_i = inner.skip(1);
    assert(rest_i =~= digits + seq![32u8] + info);
    assert(match_at(rest_i, seq![32u8], dl)) by {
        assert(rest_i.subrange(dl, dl + 1) =~= seq![32u8]);
    }
    assert forall|k: int| 0 <= k < dl implies !match_at(rest_i, seq![32u8], k) by {
        if match_at(rest_i, seq![32u8], k) {
            lemma_match_byte(rest_i, seq![32u8], k, 0);
            assert(rest_i[k] == digits[k]);
            assert(is_digit(digits[k]));
        }
    }
    lemma_find_at(rest_i, seq![32u8], dl);
    assert(rest_i.subrange(0, dl) =~= digits);
    assert(rest_i.subrange(dl + 1, rest_i.len() as int) =~= info);
    assert(id_info_spec(inner) == Ok::<(u8, Seq<u8>), DescError>(
        (parse_u8_spec(digits)->Some_0, trim_seq(info)),
    ));
    let tp = ascii_bytes("TEMPO"@);
    assert(match_at(kw, tp, 0)) by {
        assert(kw.subrange(0, 5) =~= tp);
    }
    lemma_find_from(kw, tp, 0);
    assert(contains_pat(kw, tp)) by {
        if find_pat(kw, tp) is None {
            assert(!match_at(kw, tp, 0));
        }
    }
    assert(normalize_newlines(desc) == desc);
    let parts = desc_parts(normalize_newlines(desc))->Some_0;
    assert(parts.0 == seq![inner, kw]);
    assert(parts.1 == seq![raw]);
    assert(parts.0[0] == inner);
    assert(parts.0[1] == kw);
    assert(parts.0.len() == 2);
    let spec_texts = Seq::new(parts.1.len(), |i: int| remove_first_lf(trim_seq(parts.1[i])));
    assert(spec_texts.len() == 1);
    assert(spec_texts[0] == remove_first_lf(trim_seq(raw)));
    let desc_flat = crate::text::open_tag() + seq![35u8] + digits + seq![32u8] + info
        + crate::text::close_tag() + crate::text::open_tag() + tempo_kw()
        + crate::text::close_tag() + raw;
    assert(desc_flat =~= desc);
}

/// The free text of a tempo description naming a short and a long id on
/// separate lines canonicalises to the form the tempo classifier reads.
proof fn lemma_tempo_raw_canonical(sd: Seq<u8>, ld: Seq<u8>, tail: Seq<u8>)
    requires
        (parse_u8_spec(sd) is Some),
        (parse_u8_spec(ld) is Some),
        tail.len() == 0 || (tail[0] == 10u8 && !is_space(tail.last()) && forall|i: int|
            0 <= i < tail.len() ==> #[trigger] tail[i] != 60u8 && tail[i] != 13u8),
    ensures
        ({
            let raw = seq![10u8] + short_pat() + sd + seq![10u8] + long_pat() + ld + tail;
            remove_first_lf(trim_seq(raw)) == short_pat() + sd + long_pat() + ld + tail
        }),
{
    reveal_strlit("Virtual button Short #");
    reveal_strlit("Virtual button Long #");
    let sp = short_pat();
    let lp = long_pat();
    let sl = sd.len() as int;
    let ll = ld.len() as int;
    let tl = tail.len() as int;
    let raw = seq![10u8] + sp + sd + seq![10u8] + lp + ld + tail;
    assert(sp.len() == 22 && lp.len() == 21);
    assert(forall|i: int| 0 <= i < 22 ==> sp[i] != 10u8);
    assert(forall|i: int| 0 <= i < 21 ==> lp[i] != 10u8);
    assert forall|i: int| 0 <= i < raw.len() implies #[trigger] raw[i] == (
        if i == 0 {
            10u8
        } else if i < 23 {
            sp[i - 1]
        } else if i < 23 + sl {
            sd[i - 23]
        } else if i == 23 + sl {
            10u8
        } else if i < 45 + sl {
            lp[i - 24 - sl]
        } else if i < 45 + sl + ll {
            ld[i - 45 - sl]
        } else {
            tail[i - 45 - sl - ll]
        }
    ) by {}
    assert(raw[0] == 10u8 && raw[1] == sp[0]);
    assert(!is_space(raw[1]));
    if tl == 0 {
        assert(raw.last() == ld[ll - 1]);
        assert(is_digit(ld[ll - 1]));
    } else {
        assert(raw.last() == tail[tl - 1]);
    }
    assert(!is_space(raw.last()));
    crate::text::lemma_trim_single_leading_space(raw);
    let trimmed = raw.skip(1);
    assert(trimmed =~= sp + sd + seq![10u8] + lp + ld + tail);
    assert(match_at(trimmed, seq![10u8], 22 + sl)) by {
        assert(trimmed.subrange(22 + sl, 22 + sl + 1) =~= seq![10u8]);
    }
    assert forall|k: int| 0 <= k < 22 + sl implies !match_at(trimmed, seq![10u8], k) by {
        if match_at(trimmed, seq![10u8], k) {
            lemma_match_byte(trimmed, seq![10u8], k, 0);
            if k < 22 {
                assert(trimmed[k] == raw[k + 1]);
                assert(raw[k + 1] == sp[k]);
            } else {
                assert(trimmed[k] == raw[k + 1]);
                assert(raw[k + 1] == sd[k - 22]);
                assert(is_digit(sd[k - 22]));
            }
        }
    }
    lemma_find_at(trimmed, seq![10u8], 22 + sl);
    assert(remove_first_lf(trimmed) =~= sp + sd + lp + ld + tail) by {
        assert(trimmed.subrange(0, 22 + sl) + trimmed.subrange(
            22 + sl + 1,
            trimmed.len() as int,
        ) =~= sp + sd + lp + ld + tail);
    }
}

/// Law: every description of the tempo form, an identifier and a label
/// inside the first bold element, the tempo keyword inside the second, and
/// a free text naming a short and a long virtual id on separate lines,
/// classifies as the two-press tempo kind with exactly those identifiers.
pub proof fn lemma_tempo_description_classification(
    digits: Seq<u8>,
    info: Seq<u8>,
    sd: Seq<u8>,
    ld: Seq<u8>,
)
    requires
        (parse_u8_spec(digits) is Some),
        (parse_u8_spec(sd) is Some),
        (parse_u8_spec(ld) is Some),
        forall|i: int| 0 <= i < info.len() ==> #[trigger] info[i] != 60u8 && info[i] != 13u8,
    ensures
        ({
            parse_b2_spec(
                crate::text::open_tag() + seq![35u8] + digits + seq![32u8] + info
                    + crate::text::close_tag() + crate::text::open_tag() + tempo_kw()
                    + crate::text::close_tag() + seq![10u8] + short_pat() + sd + seq![10u8]
                    + long_pat() + ld,
            ) == Ok::<PhysModel, DescError>(
                (PhysModel {
                    id: parse_u8_spec(digits)->Some_0,
                    kind: PhysicalButtonKindView::Tempo(
                        (TempoKind::Tempo2 {
                            button_id_short: parse_u8_spec(sd)->Some_0,
                            button_id_long: parse_u8_spec(ld)->Some_0,
                        }),
                    ),
                    info: trim_seq(info),
                    extended_desc: tempo_kw(),
                }),
            )
        }),
{
    reveal_strlit("Virtual button Short #");
    reveal_strlit("Virtual button Long #");
    let sp = short_pat();
    let lp = long_pat();
    let sl = sd.len() as int;
    let raw = seq![10u8] + sp + sd + seq![10u8] + lp + ld;
    assert(sp.len() == 22 && lp.len() == 21);
    assert(forall|i: int| 0 <= i < 22 ==> sp[i] != 60u8 && sp[i] != 13u8);
    assert(forall|i: int| 0 <= i < 21 ==> lp[i] != 60u8 && lp[i] != 13u8);
    assert forall|i: int| 0 <= i < raw.len() implies #[trigger] raw[i] != 60u8 && raw[i]
        != 13u8 by {
        if 1 <= i < 23 {
            assert(raw[i] == sp[i - 1]);
        } else if 23 <= i < 23 + sl {
            assert(raw[i] == sd[i - 23]);
            assert(is_digit(sd[i - 23]));
        } else if 23 + sl < i < 45 + sl {
            assert(raw[i] == lp[i - 24 - sl]);
        } else if i > 23 + sl {
            assert(raw[i] == ld[i - 45 - sl]);
            assert(is_digit(ld[i - 45 - sl]));
        }
    }
    lemma_tempo_desc_split(digits, info, raw);
    lemma_tempo_raw_canonical(sd, ld, Seq::<u8>::empty());
    assert(seq![10u8] + sp + sd + seq![10u8] + lp + ld + Seq::<u8>::empty() =~= raw);
    assert(sp + sd + lp + ld + Seq::<u8>::empty() =~= sp + sd + lp + ld);
    lemma_tempo_short_long_classification(sd, ld);
    let desc_a = crate::text::open_tag() + seq![35u8] + digits + seq![32u8] + info
        + crate::text::close_tag() + crate::text::open_tag() + tempo_kw()
        + crate::text::close_tag() + raw;
    let desc_b = crate::text::open_tag() + seq![35u8] + digits + seq![32u8] + info
        + crate::text::close_tag() + crate::text::open_tag() + tempo_kw()
        + crate::text::close_tag() + seq![10u8] + short_pat() + sd + seq![10u8] + long_pat()
        + ld;
    assert(desc_a =~= desc_b);
}

/// Law: adding a double-press line to a tempo description makes it
/// classify as the three-press tempo kind instead, with exactly the three
/// named identifiers.
pub proof fn lemma_tempo_double_description_classification(
    digits: Seq<u8>,
    info: Seq<u8>,
    sd: Seq<u8>,
    ld: Seq<u8>,
    dd: Seq<u8>,
)
    requires
        (parse_u8_spec(digits) is Some),
        (parse_u8_spec(sd) is Some),
        (parse_u8_spec(ld) is Some),
        (parse_u8_spec(dd) is Some),
        forall|i: int| 0 <= i < info.len() ==> #[trigger] info[i] != 60u8 && info[i] != 13u8,
    ensures
        ({
            parse_b2_spec(
                crate::text::open_tag() + seq![35u8] + digits + seq![32u8] + info
                    + crate::text::close_tag() + crate::text::open_tag() + tempo_kw()
                    + crate::text::close_tag() + seq![10u8] + short_pat() + sd + seq![10u8]
                    + long_pat() + ld + seq![10u8] + double_pat() + dd,
            ) == Ok::<PhysModel, DescError>(
                (PhysModel {
                    id: parse_u8_spec(digits)->Some_0,
                    kind: PhysicalButtonKindView::Tempo(
                        (TempoKind::Tempo3 {
                            button_id_short: parse_u8_spec(sd)->Some_0,
                            button_id_long: parse_u8_spec(ld)->Some_0,
                            button_id_double: parse_u8_spec(dd)->Some_0,
                        }),
                    ),
                    info: trim_seq(info),
                    extended_desc: tempo_kw(),
                }),
            )
        }),
{
    reveal_strlit("Virtual button Short #");
    reveal_strlit("Virtual button Long #");
    reveal_strlit("Virtual button Double Short #");
    let sp = short_pat();
    let lp = long_pat();
    let dp = double_pat();
    let sl = sd.len() as int;
    let ll = ld.len() as int;
    let ddl = dd.len() as int;
    let tail = seq![10u8] + dp + dd;
    let raw = seq![10u8] + sp + sd + seq![10u8] + lp + ld + tail;
    assert(sp.len() == 22 && lp.len() == 21 && dp.len() == 29);
    assert(forall|i: int| 0 <= i < 22 ==> sp[i] != 60u8 && sp[i] != 13u8);
    assert(forall|i: int| 0 <= i < 21 ==> lp[i] != 60u8 && lp[i] != 13u8);
    assert(forall|i: int| 0 <= i < 29 ==> dp[i] != 60u8 && dp[i] != 13u8);
    assert forall|i: int| 0 <= i < tail.len() implies #[trigger] tail[i] != 60u8 && tail[i]
        != 13u8 by {
        if 1 <= i < 30 {
            assert(tail[i] == dp[i - 1]);
        } else if i >= 30 {
            assert(tail[i] == dd[i - 30]);
            assert(is_digit(dd[i - 30]));
        }
    }
    assert(tail[0] == 10u8);
    assert(tail.last() == dd[ddl - 1]);
    assert(is_digit(dd[ddl - 1]));
    assert(!is_space(tail.last()));
    assert forall|i: int| 0 <= i < raw.len() implies #[trigger] raw[i] != 60u8 && raw[i]
        != 13u8 by {
        if 1 <= i < 23 {
            assert(raw[i] == sp[i - 1]);
        } else if 23 <= i < 23 + sl {
            assert(raw[i] == sd[i - 23]);
            assert(is_digit(sd[i - 23]));
        } else if 23 + sl < i < 45 + sl {
            assert(raw[i] == lp[i - 24 - sl]);
        } else if 45 + sl <= i < 45 + sl + ll {
            assert(raw[i] == ld[i - 45 - sl]);
            assert(is_digit(ld[i - 45 - sl]));
        } else if i > 23 + sl {
            assert(raw[i] == tail[i - 45 - sl - ll]);
        }
    }
    lemma_tempo_desc_split(digits, info, raw);
    lemma_tempo_raw_canonical(sd, ld, tail);
    assert(sp + sd + lp + ld + tail =~= sp + sd + lp + ld + seq![10u8] + dp + dd);
    lemma_tempo_with_double_classification(sd, ld, dd);
    let desc_a = crate::text::open_tag() + seq![35u8] + digits + seq![32u8] + info
        + crate::text::close_tag() + crate::text::open_tag() + tempo_kw()
        + crate::text::close_tag() + raw;
    let desc_b = crate::text::open_tag() + seq![35u8] + digits + seq![32u8] + info
        + crate::text::close_tag() + crate::text::open_tag() + tempo_kw()
        + crate::text::close_tag() + seq![10u8] + short_pat() + sd + seq![10u8] + long_pat()
        + ld + seq![10u8] + double_pat() + dd;
    assert(desc_a =~= desc_b);
}

} // verus!
