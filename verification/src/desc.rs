//! Splitter for the bold-tagged description fragments of the export format.
//!
//! A description is a flat alternation of raw text and `<b>...</b>` elements.
//! The splitter returns the contents of the bold elements in order, together
//! with the non-empty raw text segments that follow the first bold element.
//! A description that is not such an alternation (a stray or missing closing
//! tag, a nested bold element) is rejected.

use vstd::prelude::*;

use crate::text::{
    contains_pat, find_pat, lemma_find_from, match_at, open_tag, close_tag, subrange_vec,
};

verus! {

/// Bold contents and following text segments of the tail of a description,
/// starting right after a closing tag: `None` when the tail is malformed.
pub open spec fn tail_parts(s: Seq<u8>) -> Option<(Seq<Seq<u8>>, Seq<Seq<u8>>)>
    decreases s.len(),
    via tail_parts_decreases
{
    match find_pat(s, open_tag()) {
        None => {
            if contains_pat(s, close_tag()) {
                None
            } else if s.len() == 0 {
                Some((seq![], seq![]))
            } else {
                Some((seq![], seq![s]))
            }
        },
        Some(i) => {
            let txt = s.subrange(0, i);
            let rest = s.subrange(i + open_tag().len(), s.len() as int);
            if contains_pat(txt, close_tag()) {
                None
            } else {
                match find_pat(rest, close_tag()) {
                    None => None,
                    Some(j) => {
                        let content = rest.subrange(0, j);
                        let after = rest.subrange(j + close_tag().len(), rest.len() as int);
                        if contains_pat(content, open_tag()) {
                            None
                        } else {
                            match tail_parts(after) {
                                None => None,
                                Some(p) => Some(
                                    (
                                        seq![content] + p.0,
                                        (if txt.len() > 0 {
                                            seq![txt]
                                        } else {
                                            seq![]
                                        }) + p.1,
                                    ),
                                ),
                            }
                        }
                    },
                }
            }
        },
    }
}

#[via_fn]
proof fn tail_parts_decreases(s: Seq<u8>) {
    lemma_find_from(s, open_tag(), 0);
    match find_pat(s, open_tag()) {
        None => {},
        Some(i) => {
            let rest = s.subrange(i + open_tag().len(), s.len() as int);
            lemma_find_from(rest, close_tag(), 0);
        },
    }
}

/// Bold contents and following text segments of a whole description: text
/// before the first bold element is ignored, and a description without any
/// bold element, or with a stray closing tag before the first one, is
/// rejected.
pub open spec fn desc_parts(s: Seq<u8>) -> Option<(Seq<Seq<u8>>, Seq<Seq<u8>>)> {
    match find_pat(s, open_tag()) {
        None => None,
        Some(i) => {
            if contains_pat(s.subrange(0, i), close_tag()) {
                None
            } else {
                tail_parts(s.subrange(i, s.len() as int))
            }
        },
    }
}

/// Every part of an ASCII description is ASCII.
pub proof fn lemma_tail_parts_ascii(s: Seq<u8>)
    requires
        crate::text::all_ascii(s),
        tail_parts(s) is Some,
    ensures
        forall|i: int|
            0 <= i < tail_parts(s)->Some_0.0.len() ==> crate::text::all_ascii(
                #[trigger] tail_parts(s)->Some_0.0[i],
            ),
        forall|i: int|
            0 <= i < tail_parts(s)->Some_0.1.len() ==> crate::text::all_ascii(
                #[trigger] tail_parts(s)->Some_0.1[i],
            ),
    decreases s.len(),
{
    lemma_find_from(s, open_tag(), 0);
    match find_pat(s, open_tag()) {
        None => {},
        Some(i) => {
            let txt = s.subrange(0, i);
            let rest = s.subrange(i + open_tag().len(), s.len() as int);
            crate::text::lemma_all_ascii_subrange(s, 0, i);
            crate::text::lemma_all_ascii_subrange(s, i + open_tag().len(), s.len() as int);
            lemma_find_from(rest, close_tag(), 0);
            match find_pat(rest, close_tag()) {
                None => {},
                Some(j) => {
                    let content = rest.subrange(0, j);
                    let after = rest.subrange(j + close_tag().len(), rest.len() as int);
                    crate::text::lemma_all_ascii_subrange(rest, 0, j);
                    crate::text::lemma_all_ascii_subrange(
                        rest,
                        j + close_tag().len(),
                        rest.len() as int,
                    );
                    if !contains_pat(content, open_tag()) && tail_parts(after) is Some {
                        lemma_tail_parts_ascii(after);
                        let p = tail_parts(after)->Some_0;
                        let bs = seq![content] + p.0;
                        let ts = (if txt.len() > 0 {
                            seq![txt]
                        } else {
                            seq![]
                        }) + p.1;
                        assert forall|k: int| 0 <= k < bs.len() implies crate::text::all_ascii(
                            #[trigger] bs[k],
                        ) by {
                            if k > 0 {
                                assert(bs[k] == p.0[k - 1]);
                            }
                        }
                        assert forall|k: int| 0 <= k < ts.len() implies crate::text::all_ascii(
                            #[trigger] ts[k],
                        ) by {
                            if txt.len() > 0 {
                                if k > 0 {
                                    assert(ts[k] == p.1[k - 1]);
                                }
                            } else {
                                assert(ts[k] == p.1[k]);
                            }
                        }
                    }
                },
            }
        },
    }
}

/// Every part of an ASCII description is ASCII.
pub proof fn lemma_desc_parts_ascii(s: Seq<u8>)
    requires
        crate::text::all_ascii(s),
        desc_parts(s) is Some,
    ensures
        forall|i: int|
            0 <= i < desc_parts(s)->Some_0.0.len() ==> crate::text::all_ascii(
                #[trigger] desc_parts(s)->Some_0.0[i],
            ),
        forall|i: int|
            0 <= i < desc_parts(s)->Some_0.1.len() ==> crate::text::all_ascii(
                #[trigger] desc_parts(s)->Some_0.1[i],
            ),
{
    lemma_find_from(s, open_tag(), 0);
    match find_pat(s, open_tag()) {
        None => {},
        Some(i) => {
            crate::text::lemma_all_ascii_subrange(s, i, s.len() as int);
            lemma_tail_parts_ascii(s.subrange(i, s.len() as int));
        },
    }
}

/// Executable form of [`tail_parts`].
fn split_tail(s: &[u8]) -> (r: Option<(Vec<Vec<u8>>, Vec<Vec<u8>>)>)
    ensures
        match (r, tail_parts(s@)) {
            (Some(rv), Some(sv)) => rv.0.deep_view() == sv.0 && rv.1.deep_view() == sv.1,
            (None, None) => true,
            _ => false,
        },
    decreases s@.len(),
{
    let ot = crate::text::open_tag_vec();
    let ct = crate::text::close_tag_vec();
    let slen = s.len();
    match crate::text::find_first(s, ot.as_slice()) {
        None => {
            if crate::text::find_first(s, ct.as_slice()).is_some() {
                None
            } else if slen == 0 {
                let r: (Vec<Vec<u8>>, Vec<Vec<u8>>) = (Vec::new(), Vec::new());
                proof {
                    assert(r.0.deep_view() =~~= Seq::<Seq<u8>>::empty());
                    assert(r.1.deep_view() =~~= Seq::<Seq<u8>>::empty());
                }
                Some(r)
            } else {
                let mut ts: Vec<Vec<u8>> = Vec::new();
                ts.push(vstd::slice::slice_to_vec(s));
                let r: (Vec<Vec<u8>>, Vec<Vec<u8>>) = (Vec::new(), ts);
                proof {
                    assert(r.0.deep_view() =~~= Seq::<Seq<u8>>::empty());
                    assert(r.1.deep_view() =~~= seq![s@]);
                }
                Some(r)
            }
        },
        Some(i) => {
            proof {
                lemma_find_from(s@, open_tag(), 0);
            }
            let txt = subrange_vec(s, 0, i);
            let rest = subrange_vec(s, i + 3, slen);
            if crate::text::find_first(txt.as_slice(), ct.as_slice()).is_some() {
                return None;
            }
            match crate::text::find_first(rest.as_slice(), ct.as_slice()) {
                None => None,
                Some(j) => {
                    proof {
                        lemma_find_from(rest@, close_tag(), 0);
                    }
                    let rlen = rest.len();
                    let content = subrange_vec(rest.as_slice(), 0, j);
                    let after = subrange_vec(rest.as_slice(), j + 4, rlen);
                    if crate::text::find_first(content.as_slice(), ot.as_slice()).is_some() {
                        return None;
                    }
                    match split_tail(after.as_slice()) {
                        None => None,
                        Some(p) => {
                            let (mut bs, mut ts) = p;
                            let ghost old_bs = bs.deep_view();
                            let ghost old_ts = ts.deep_view();
                            bs.insert(0, content);
                            proof {
                                assert(bs.deep_view() =~~= seq![content@] + old_bs);
                            }
                            if txt.len() > 0 {
                                ts.insert(0, txt);
                                proof {
                                    assert(ts.deep_view() =~~= seq![txt@] + old_ts);
                                }
                            } else {
                                proof {
                                    assert(ts.deep_view() =~~= Seq::<Seq<u8>>::empty() + old_ts);
                                }
                            }
                            Some((bs, ts))
                        },
                    }
                },
            }
        },
    }
}

/// Executable form of [`desc_parts`].
pub fn split_desc(s: &[u8]) -> (r: Option<(Vec<Vec<u8>>, Vec<Vec<u8>>)>)
    ensures
        match (r, desc_parts(s@)) {
            (Some(rv), Some(sv)) => rv.0.deep_view() == sv.0 && rv.1.deep_view() == sv.1,
            (None, None) => true,
            _ => false,
        },
{
    let ot = crate::text::open_tag_vec();
    let ct = crate::text::close_tag_vec();
    let slen = s.len();
    match crate::text::find_first(s, ot.as_slice()) {
        None => None,
        Some(i) => {
            proof {
                lemma_find_from(s@, open_tag(), 0);
            }
            let pre = subrange_vec(s, 0, i);
            if crate::text::find_first(pre.as_slice(), ct.as_slice()).is_some() {
                return None;
            }
            let from_open = subrange_vec(s, i, slen);
            split_tail(from_open.as_slice())
        },
    }
}

} // verus!
