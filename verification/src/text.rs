//! Byte-level text model and verified string primitives.
//!
//! The exported descriptions are ASCII, so the library models every string as
//! the sequence of its bytes and states contracts over that model.

use vstd::prelude::*;
use vstd::string::StringSliceAdditionalSpecFns;

verus! {

/// The bytes of an ASCII character sequence.
pub open spec fn ascii_bytes(cs: Seq<char>) -> Seq<u8> {
    Seq::new(cs.len(), |i: int| cs[i] as u8)
}

/// The characters denoted by a sequence of ASCII bytes.
pub open spec fn chars_of(bs: Seq<u8>) -> Seq<char> {
    Seq::new(bs.len(), |i: int| bs[i] as char)
}

/// A copy of pattern `p` starts at position `i` of `s`.
pub open spec fn match_at(s: Seq<u8>, p: Seq<u8>, i: int) -> bool {
    0 <= i && i + p.len() <= s.len() && s.subrange(i, i + p.len()) == p
}

/// Position of the first copy of `p` at or after position `i` of `s`.
pub open spec fn find_from(s: Seq<u8>, p: Seq<u8>, i: int) -> Option<int>
    decreases s.len() + 1 - i,
{
    if i < 0 || i + p.len() > s.len() {
        None
    } else if s.subrange(i, i + p.len()) == p {
        Some(i)
    } else {
        find_from(s, p, i + 1)
    }
}

/// Position of the first copy of `p` in `s`.
pub open spec fn find_pat(s: Seq<u8>, p: Seq<u8>) -> Option<int> {
    find_from(s, p, 0)
}

/// `s` contains a copy of `p`.
pub open spec fn contains_pat(s: Seq<u8>, p: Seq<u8>) -> bool {
    find_pat(s, p) is Some
}

/// `find_from` returns exactly the first match position at or after `i`.
pub proof fn lemma_find_from(s: Seq<u8>, p: Seq<u8>, i: int)
    requires
        0 <= i,
    ensures
        match find_from(s, p, i) {
            Some(j) => i <= j && match_at(s, p, j) && forall|k: int|
                i <= k < j ==> !match_at(s, p, k),
            None => forall|k: int| i <= k ==> !match_at(s, p, k),
        },
    decreases s.len() + 1 - i,
{
    if i + p.len() > s.len() {
        assert forall|k: int| i <= k implies !match_at(s, p, k) by {}
    } else if s.subrange(i, i + p.len()) == p {
    } else {
        lemma_find_from(s, p, i + 1);
    }
}

/// Whether a copy of `p` starts at position `i` of `s`.
pub fn eq_at(s: &[u8], p: &[u8], i: usize) -> (r: bool)
    requires
        i + p@.len() <= s@.len(),
    ensures
        r == match_at(s@, p@, i as int),
{
    let slen = s.len();
    let mut j: usize = 0;
    while j < p.len()
        invariant
            s@.len() == slen,
            i + p@.len() <= s@.len(),
            0 <= j <= p@.len(),
            forall|k: int| 0 <= k < j ==> s@[i + k] == p@[k],
        decreases p@.len() - j,
    {
        if s[i + j] != p[j] {
            assert(s@.subrange(i as int, i + p@.len()) != p@) by {
                assert(s@.subrange(i as int, i + p@.len())[j as int] != p@[j as int]);
            }
            return false;
        }
        j += 1;
    }
    assert(s@.subrange(i as int, i + p@.len()) =~= p@);
    true
}

/// Position of the first copy of `p` in `s`, if any.
pub fn find_first(s: &[u8], p: &[u8]) -> (r: Option<usize>)
    requires
        p@.len() >= 1,
    ensures
        match r {
            Some(j) => find_pat(s@, p@) == Some(j as int),
            None => find_pat(s@, p@) is None,
        },
{
    proof {
        lemma_find_from(s@, p@, 0);
    }
    if p.len() > s.len() {
        return None;
    }
    let n = s.len() - p.len();
    let mut i: usize = 0;
    while i <= n
        invariant
            s@.len() <= usize::MAX,
            1 <= p@.len() <= s@.len(),
            n == s@.len() - p@.len(),
            0 <= i <= n + 1,
            forall|k: int| 0 <= k < i ==> !match_at(s@, p@, k),
        decreases n + 1 - i,
    {
        if eq_at(s, p, i) {
            proof {
                lemma_find_from(s@, p@, 0);
                if find_pat(s@, p@) is None {
                    assert(!match_at(s@, p@, i as int));
                } else {
                    let j = find_pat(s@, p@)->Some_0;
                    assert(match_at(s@, p@, j));
                    assert(j == i);
                }
            }
            return Some(i);
        }
        i += 1;
    }
    proof {
        lemma_find_from(s@, p@, 0);
        assert forall|k: int| 0 <= k implies !match_at(s@, p@, k) by {
            if k > n {
                assert(k + p@.len() > s@.len());
            }
        }
        if find_pat(s@, p@) is Some {
            let j = find_pat(s@, p@)->Some_0;
            assert(match_at(s@, p@, j));
        }
    }
    None
}

/// Position of the last copy of `p` starting at or before position `i` of `s`.
pub open spec fn find_last_from(s: Seq<u8>, p: Seq<u8>, i: int) -> Option<int>
    decreases i + 1,
{
    if i < 0 {
        None
    } else if match_at(s, p, i) {
        Some(i)
    } else {
        find_last_from(s, p, i - 1)
    }
}

/// Position of the last copy of `p` in `s`.
pub open spec fn find_last_pat(s: Seq<u8>, p: Seq<u8>) -> Option<int> {
    find_last_from(s, p, s.len() - p.len())
}

/// `find_last_from` returns exactly the last match position at or before `i`.
pub proof fn lemma_find_last_from(s: Seq<u8>, p: Seq<u8>, i: int)
    ensures
        match find_last_from(s, p, i) {
            Some(j) => j <= i && match_at(s, p, j) && forall|k: int|
                j < k <= i ==> !match_at(s, p, k),
            None => forall|k: int| k <= i ==> !match_at(s, p, k),
        },
    decreases i + 1,
{
    if i < 0 {
    } else if match_at(s, p, i) {
    } else {
        lemma_find_last_from(s, p, i - 1);
    }
}

/// The first and the last match agree with each other's existence.
pub proof fn lemma_find_last_pat(s: Seq<u8>, p: Seq<u8>)
    ensures
        match find_last_pat(s, p) {
            Some(j) => match_at(s, p, j) && forall|k: int| j < k ==> !match_at(s, p, k),
            None => forall|k: int| !match_at(s, p, k),
        },
{
    lemma_find_last_from(s, p, s.len() - p.len());
    match find_last_pat(s, p) {
        Some(j) => {
            assert forall|k: int| j < k implies !match_at(s, p, k) by {
                if k > s.len() - p.len() {
                    assert(k + p.len() > s.len());
                }
            }
        },
        None => {
            assert forall|k: int| !match_at(s, p, k) by {
                if k > s.len() - p.len() {
                    assert(k + p.len() > s.len());
                }
            }
        },
    }
}

/// Position of the last copy of `p` in `s`, if any.
pub fn find_last(s: &[u8], p: &[u8]) -> (r: Option<usize>)
    requires
        p@.len() >= 1,
    ensures
        match r {
            Some(j) => find_last_pat(s@, p@) == Some(j as int),
            None => find_last_pat(s@, p@) is None,
        },
{
    proof {
        lemma_find_last_from(s@, p@, s@.len() - p@.len());
    }
    if p.len() > s.len() {
        return None;
    }
    let n = s.len() - p.len();
    let mut i: usize = n;
    loop
        invariant
            s@.len() <= usize::MAX,
            1 <= p@.len() <= s@.len(),
            n == s@.len() - p@.len(),
            0 <= i <= n,
            forall|k: int| i < k <= n ==> !match_at(s@, p@, k),
        ensures
            forall|k: int| 0 <= k <= n ==> !match_at(s@, p@, k),
        decreases i,
    {
        if eq_at(s, p, i) {
            proof {
                lemma_find_last_from(s@, p@, n as int);
                if find_last_pat(s@, p@) is None {
                    assert(!match_at(s@, p@, i as int));
                } else {
                    let j = find_last_pat(s@, p@)->Some_0;
                    assert(match_at(s@, p@, j));
                    assert(j == i);
                }
            }
            return Some(i);
        }
        if i == 0 {
            break;
        }
        i -= 1;
    }
    proof {
        lemma_find_last_from(s@, p@, n as int);
        if find_last_pat(s@, p@) is Some {
            let j = find_last_pat(s@, p@)->Some_0;
            assert(match_at(s@, p@, j));
            assert(j <= n);
        }
    }
    None
}

/// What follows the last copy of `p` in `s`; all of `s` when `p` is absent.
pub open spec fn after_last(s: Seq<u8>, p: Seq<u8>) -> Seq<u8> {
    match find_last_pat(s, p) {
        Some(i) => s.subrange(i + p.len(), s.len() as int),
        None => s,
    }
}

/// What precedes the first copy of `p` in `s`; all of `s` when `p` is absent.
pub open spec fn before_first(s: Seq<u8>, p: Seq<u8>) -> Seq<u8> {
    match find_pat(s, p) {
        Some(i) => s.subrange(0, i),
        None => s,
    }
}

/// Copy of the byte range `a..b` of `s`.
pub fn subrange_vec(s: &[u8], a: usize, b: usize) -> (r: Vec<u8>)
    requires
        a <= b <= s@.len(),
    ensures
        r@ == s@.subrange(a as int, b as int),
{
    vstd::slice::slice_to_vec(vstd::slice::slice_subrange(s, a, b))
}

/// Executable form of [`after_last`].
pub fn after_last_vec(s: &[u8], p: &[u8]) -> (r: Vec<u8>)
    requires
        p@.len() >= 1,
    ensures
        r@ == after_last(s@, p@),
{
    let slen = s.len();
    match find_last(s, p) {
        Some(i) => {
            proof {
                lemma_find_last_pat(s@, p@);
            }
            subrange_vec(s, i + p.len(), slen)
        },
        None => vstd::slice::slice_to_vec(s),
    }
}

/// Executable form of [`before_first`].
pub fn before_first_vec(s: &[u8], p: &[u8]) -> (r: Vec<u8>)
    requires
        p@.len() >= 1,
    ensures
        r@ == before_first(s@, p@),
{
    match find_first(s, p) {
        Some(i) => {
            proof {
                lemma_find_from(s@, p@, 0);
            }
            subrange_vec(s, 0, i)
        },
        None => vstd::slice::slice_to_vec(s),
    }
}

/// ASCII whitespace, the characters the export format can produce.
pub open spec fn is_space(b: u8) -> bool {
    b == 32 || (9 <= b && b <= 13)
}

/// `s` without leading whitespace.
pub open spec fn trim_start(s: Seq<u8>) -> Seq<u8>
    decreases s.len(),
{
    if s.len() > 0 && is_space(s[0]) {
        trim_start(s.skip(1))
    } else {
        s
    }
}

/// `s` without trailing whitespace.
pub open spec fn trim_end(s: Seq<u8>) -> Seq<u8>
    decreases s.len(),
{
    if s.len() > 0 && is_space(s.last()) {
        trim_end(s.take(s.len() - 1))
    } else {
        s
    }
}

/// `s` without leading and trailing whitespace.
pub open spec fn trim_seq(s: Seq<u8>) -> Seq<u8> {
    trim_end(trim_start(s))
}

proof fn lemma_trim_start_skip(s: Seq<u8>, a: int)
    requires
        0 <= a <= s.len(),
        forall|k: int| 0 <= k < a ==> is_space(s[k]),
        a == s.len() || !is_space(s[a]),
    ensures
        trim_start(s) == s.skip(a),
    decreases a,
{
    if a == 0 {
        assert(s.skip(0) =~= s);
    } else {
        assert(is_space(s[0]));
        lemma_trim_start_skip(s.skip(1), a - 1);
        assert(s.skip(1).skip(a - 1) =~= s.skip(a));
    }
}

proof fn lemma_trim_end_take(s: Seq<u8>, b: int)
    requires
        0 <= b <= s.len(),
        forall|k: int| b <= k < s.len() ==> is_space(s[k]),
        b == 0 || !is_space(s[b - 1]),
    ensures
        trim_end(s) == s.take(b),
    decreases s.len() - b,
{
    if b == s.len() {
        assert(s.take(b) =~= s);
    } else {
        assert(is_space(s.last()));
        lemma_trim_end_take(s.take(s.len() - 1), b);
        assert(s.take(s.len() - 1).take(b) =~= s.take(b));
    }
}

/// Executable form of [`trim_seq`].
pub fn trim_bytes(s: &[u8]) -> (r: Vec<u8>)
    ensures
        r@ == trim_seq(s@),
{
    let slen = s.len();
    let mut a: usize = 0;
    while a < slen && (s[a] == 32 || (9 <= s[a] && s[a] <= 13))
        invariant
            s@.len() == slen,
            0 <= a <= slen,
            forall|k: int| 0 <= k < a ==> is_space(s@[k]),
        decreases slen - a,
    {
        a += 1;
    }
    proof {
        lemma_trim_start_skip(s@, a as int);
    }
    let mut b: usize = slen;
    while b > a && (s[b - 1] == 32 || (9 <= s[b - 1] && s[b - 1] <= 13))
        invariant
            s@.len() == slen,
            0 <= a <= b <= slen,
            forall|k: int| 0 <= k < a ==> is_space(s@[k]),
            forall|k: int| b <= k < slen ==> is_space(s@[k]),
        decreases b,
    {
        b -= 1;
    }
    proof {
        let t = s@.skip(a as int);
        lemma_trim_end_take(t, b - a);
        assert(t.take(b - a) =~= s@.subrange(a as int, b as int));
        if b == a {
        } else {
            assert(!is_space(t[b - a - 1]));
        }
    }
    subrange_vec(s, a, b)
}

/// `s` with carriage returns canonicalised: a CR LF pair and a lone CR both
/// become a single LF, as an HTML parser's input preprocessing does.
pub open spec fn normalize_newlines(s: Seq<u8>) -> Seq<u8>
    decreases s.len(),
{
    if s.len() == 0 {
        seq![]
    } else if s[0] == 13 && s.len() >= 2 && s[1] == 10 {
        seq![10u8] + normalize_newlines(s.skip(2))
    } else if s[0] == 13 {
        seq![10u8] + normalize_newlines(s.skip(1))
    } else {
        seq![s[0]] + normalize_newlines(s.skip(1))
    }
}

/// Executable form of [`normalize_newlines`].
pub fn normalize_newlines_vec(s: &[u8]) -> (r: Vec<u8>)
    ensures
        r@ == normalize_newlines(s@),
{
    let slen = s.len();
    let mut r: Vec<u8> = Vec::new();
    let mut i: usize = 0;
    proof {
        assert(s@.skip(0) =~= s@);
        assert(r@ + normalize_newlines(s@) =~= normalize_newlines(s@));
    }
    while i < slen
        invariant
            s@.len() == slen,
            0 <= i <= slen,
            normalize_newlines(s@) == r@ + normalize_newlines(s@.skip(i as int)),
        decreases slen - i,
    {
        let ghost rest = s@.skip(i as int);
        proof {
            assert(rest[0] == s@[i as int]);
            assert(rest.skip(1) =~= s@.skip(i as int + 1));
            if i + 2 <= slen {
                assert(rest.skip(2) =~= s@.skip(i as int + 2));
            }
        }
        if s[i] == 13 && i + 1 < slen && s[i + 1] == 10 {
            proof {
                assert(rest[1] == s@[i as int + 1]);
                assert(normalize_newlines(rest) == seq![10u8] + normalize_newlines(
                    s@.skip(i as int + 2),
                ));
            }
            r.push(10);
            proof {
                assert(r@ + normalize_newlines(s@.skip(i as int + 2)) =~= (r@.drop_last()
                    + normalize_newlines(rest)));
            }
            i += 2;
        } else {
            let c = if s[i] == 13 {
                10
            } else {
                s[i]
            };
            proof {
                if s@[i as int] == 13 {
                    assert(normalize_newlines(rest) == seq![10u8] + normalize_newlines(
                        s@.skip(i as int + 1),
                    ));
                } else {
                    assert(normalize_newlines(rest) == seq![s@[i as int]] + normalize_newlines(
                        s@.skip(i as int + 1),
                    ));
                }
            }
            r.push(c);
            proof {
                assert(r@ + normalize_newlines(s@.skip(i as int + 1)) =~= (r@.drop_last()
                    + normalize_newlines(rest)));
            }
            i += 1;
        }
    }
    proof {
        assert(s@.skip(slen as int) =~= Seq::<u8>::empty());
        assert(r@ + normalize_newlines(s@.skip(slen as int)) =~= r@);
    }
    r
}

/// `s` with its first line feed removed, as a single-shot replacement does.
pub open spec fn remove_first_lf(s: Seq<u8>) -> Seq<u8> {
    match find_pat(s, seq![10u8]) {
        Some(i) => s.subrange(0, i) + s.subrange(i + 1, s.len() as int),
        None => s,
    }
}

/// Executable form of [`remove_first_lf`].
pub fn remove_first_lf_vec(s: &[u8]) -> (r: Vec<u8>)
    ensures
        r@ == remove_first_lf(s@),
{
    let pat: Vec<u8> = vec![10u8];
    proof {
        assert(pat@ =~= seq![10u8]);
    }
    match find_first(s, pat.as_slice()) {
        Some(i) => {
            proof {
                lemma_find_from(s@, seq![10u8], 0);
            }
            let slen = s.len();
            let mut r = subrange_vec(s, 0, i);
            let mut tail = subrange_vec(s, i + 1, slen);
            r.append(&mut tail);
            r
        },
        None => vstd::slice::slice_to_vec(s),
    }
}

/// `s` with every line feed removed.
pub open spec fn remove_all_lf(s: Seq<u8>) -> Seq<u8>
    decreases s.len(),
{
    if s.len() == 0 {
        seq![]
    } else if s[0] == 10 {
        remove_all_lf(s.skip(1))
    } else {
        seq![s[0]] + remove_all_lf(s.skip(1))
    }
}

/// Executable form of [`remove_all_lf`].
pub fn remove_all_lf_vec(s: &[u8]) -> (r: Vec<u8>)
    ensures
        r@ == remove_all_lf(s@),
{
    let slen = s.len();
    let mut r: Vec<u8> = Vec::new();
    let mut i: usize = 0;
    proof {
        assert(s@.skip(0) =~= s@);
        assert(r@ + remove_all_lf(s@) =~= remove_all_lf(s@));
    }
    while i < slen
        invariant
            s@.len() == slen,
            0 <= i <= slen,
            remove_all_lf(s@) == r@ + remove_all_lf(s@.skip(i as int)),
        decreases slen - i,
    {
        let ghost rest = s@.skip(i as int);
        proof {
            assert(rest[0] == s@[i as int]);
            assert(rest.skip(1) =~= s@.skip(i as int + 1));
        }
        if s[i] != 10 {
            r.push(s[i]);
            proof {
                assert(r@ + remove_all_lf(s@.skip(i as int + 1)) =~= (r@.drop_last()
                    + remove_all_lf(rest)));
            }
        }
        i += 1;
    }
    proof {
        assert(s@.skip(slen as int) =~= Seq::<u8>::empty());
        assert(r@ + remove_all_lf(s@.skip(slen as int)) =~= r@);
    }
    r
}

/// A decimal digit byte.
pub open spec fn is_digit(b: u8) -> bool {
    48 <= b && b <= 57
}

/// Every byte of `s` is a decimal digit.
pub open spec fn all_digits(s: Seq<u8>) -> bool {
    forall|i: int| 0 <= i < s.len() ==> is_digit(#[trigger] s[i])
}

/// The number denoted by a sequence of decimal digit bytes.
pub open spec fn dec_val(s: Seq<u8>) -> int
    decreases s.len(),
{
    if s.len() == 0 {
        0
    } else {
        dec_val(s.drop_last()) * 10 + (s.last() - 48)
    }
}

/// The eight-bit number a byte sequence denotes: defined exactly for a
/// non-empty run of decimal digits whose value fits.
pub open spec fn parse_u8_spec(s: Seq<u8>) -> Option<u8> {
    if s.len() > 0 && all_digits(s) && dec_val(s) <= 255 {
        Some(dec_val(s) as u8)
    } else {
        None
    }
}

proof fn lemma_dec_val_nonneg(s: Seq<u8>)
    requires
        all_digits(s),
    ensures
        dec_val(s) >= 0,
    decreases s.len(),
{
    if s.len() > 0 {
        assert(all_digits(s.drop_last())) by {
            assert(forall|i: int|
                0 <= i < s.len() - 1 ==> is_digit(#[trigger] s.drop_last()[i]) == is_digit(
                    s[i],
                ));
        }
        lemma_dec_val_nonneg(s.drop_last());
    }
}

/// Executable form of [`parse_u8_spec`].
pub fn parse_u8_bytes(s: &[u8]) -> (r: Option<u8>)
    ensures
        r == parse_u8_spec(s@),
{
    let slen = s.len();
    if slen == 0 {
        return None;
    }
    let mut acc: u16 = 0;
    let mut big = false;
    let mut i: usize = 0;
    while i < slen
        invariant
            s@.len() == slen,
            0 < slen,
            0 <= i <= slen,
            all_digits(s@.subrange(0, i as int)),
            big == (dec_val(s@.subrange(0, i as int)) > 255),
            !big ==> acc == dec_val(s@.subrange(0, i as int)),
            acc <= 255,
        decreases slen - i,
    {
        let b = s[i];
        if b < 48 || b > 57 {
            assert(!is_digit(s@[i as int]));
            return None;
        }
        let ghost pre = s@.subrange(0, i as int);
        let ghost cur = s@.subrange(0, i as int + 1);
        proof {
            assert(cur.drop_last() =~= pre);
            assert(cur.last() == s@[i as int]);
            assert(dec_val(cur) == dec_val(pre) * 10 + (s@[i as int] - 48));
            lemma_dec_val_nonneg(pre);
        }
        if !big {
            let v = acc * 10 + (b - 48) as u16;
            if v > 255 {
                big = true;
            } else {
                acc = v;
            }
        }
        i += 1;
    }
    proof {
        assert(s@.subrange(0, slen as int) =~= s@);
    }
    if big {
        None
    } else {
        Some(acc as u8)
    }
}

/// The bytes of the opening bold tag.
pub open spec fn open_tag() -> Seq<u8> {
    seq![60u8, 98u8, 62u8]
}

/// The bytes of the closing bold tag.
pub open spec fn close_tag() -> Seq<u8> {
    seq![60u8, 47u8, 98u8, 62u8]
}

/// Executable form of [`open_tag`].
pub fn open_tag_vec() -> (r: Vec<u8>)
    ensures
        r@ == open_tag(),
{
    let r: Vec<u8> = vec![60u8, 98u8, 62u8];
    proof {
        assert(r@ =~= open_tag());
    }
    r
}

/// Executable form of [`close_tag`].
pub fn close_tag_vec() -> (r: Vec<u8>)
    ensures
        r@ == close_tag(),
{
    let r: Vec<u8> = vec![60u8, 47u8, 98u8, 62u8];
    proof {
        assert(r@ =~= close_tag());
    }
    r
}

/// Whether `s` consists of ASCII characters only.
pub fn check_ascii(s: &str) -> (r: bool)
    ensures
        r == vstd::utf8::is_ascii_chars(s@),
{
    s.is_ascii()
}

/// The bytes of an ASCII string slice, one byte per character.
pub fn str_bytes(s: &str) -> (r: &[u8])
    requires
        vstd::utf8::is_ascii_chars(s@),
    ensures
        r@ == ascii_bytes(s@),
{
    proof {
        broadcast use vstd::string::is_ascii_spec_bytes;

        assert(vstd::string::is_ascii(s));
        assert(s.spec_bytes() =~= ascii_bytes(s@));
    }
    s.as_bytes()
}

/// ASCII bytes denote ASCII characters, and the two conversions invert
/// each other on them.
pub proof fn lemma_ascii_roundtrip(cs: Seq<char>)
    requires
        vstd::utf8::is_ascii_chars(cs),
    ensures
        chars_of(ascii_bytes(cs)) =~= cs,
        forall|i: int| 0 <= i < cs.len() ==> ascii_bytes(cs)[i] < 128,
{
    broadcast use vstd::utf8::is_ascii_chars_nat_bound;
    broadcast use vstd::utf8::char_u32_cast;

    assert forall|i: int| 0 <= i < cs.len() implies chars_of(ascii_bytes(cs))[i] == cs[i]
        && ascii_bytes(cs)[i] < 128 by {
        let c = cs[i];
        assert((c as nat) < 128);
        assert((c as u32) as char == c);
    }
}

/// Every byte of `bs` is an ASCII byte.
pub open spec fn all_ascii(bs: Seq<u8>) -> bool {
    forall|i: int| 0 <= i < bs.len() ==> #[trigger] bs[i] < 128
}

/// The bytes of an ASCII character sequence are ASCII bytes.
pub proof fn lemma_ascii_bytes_all(cs: Seq<char>)
    requires
        vstd::utf8::is_ascii_chars(cs),
    ensures
        all_ascii(ascii_bytes(cs)),
{
    lemma_ascii_roundtrip(cs);
    assert forall|i: int| 0 <= i < ascii_bytes(cs).len() implies #[trigger] ascii_bytes(
        cs,
    )[i] < 128 by {}
}

/// A subrange of an ASCII byte sequence is ASCII.
pub proof fn lemma_all_ascii_subrange(s: Seq<u8>, a: int, b: int)
    requires
        all_ascii(s),
        0 <= a <= b <= s.len(),
    ensures
        all_ascii(s.subrange(a, b)),
{
    assert forall|i: int| 0 <= i < s.subrange(a, b).len() implies #[trigger] s.subrange(
        a,
        b,
    )[i] < 128 by {
        assert(s.subrange(a, b)[i] == s[a + i]);
    }
}

/// Newline canonicalisation keeps a byte sequence ASCII.
pub proof fn lemma_all_ascii_normalize(s: Seq<u8>)
    requires
        all_ascii(s),
    ensures
        all_ascii(normalize_newlines(s)),
    decreases s.len(),
{
    if s.len() == 0 {
    } else if s[0] == 13 && s.len() >= 2 && s[1] == 10 {
        assert(all_ascii(s.skip(2))) by {
            assert(forall|i: int| 0 <= i < s.skip(2).len() ==> s.skip(2)[i] == s[i + 2]);
        }
        lemma_all_ascii_normalize(s.skip(2));
    } else {
        assert(all_ascii(s.skip(1))) by {
            assert(forall|i: int| 0 <= i < s.skip(1).len() ==> s.skip(1)[i] == s[i + 1]);
        }
        lemma_all_ascii_normalize(s.skip(1));
        if s[0] == 13 {
        } else {
            assert(s[0] < 128);
        }
    }
}

/// Trimming keeps a byte sequence ASCII.
pub proof fn lemma_all_ascii_trim(s: Seq<u8>)
    requires
        all_ascii(s),
    ensures
        all_ascii(trim_seq(s)),
    decreases s.len(),
{
    let a = trim_start(s);
    assert(all_ascii(a)) by {
        lemma_trim_start_ascii(s);
    }
    lemma_trim_end_ascii(a);
}

proof fn lemma_trim_start_ascii(s: Seq<u8>)
    requires
        all_ascii(s),
    ensures
        all_ascii(trim_start(s)),
    decreases s.len(),
{
    if s.len() > 0 && is_space(s[0]) {
        assert(all_ascii(s.skip(1))) by {
            assert(forall|i: int| 0 <= i < s.skip(1).len() ==> s.skip(1)[i] == s[i + 1]);
        }
        lemma_trim_start_ascii(s.skip(1));
    }
}

proof fn lemma_trim_end_ascii(s: Seq<u8>)
    requires
        all_ascii(s),
    ensures
        all_ascii(trim_end(s)),
    decreases s.len(),
{
    if s.len() > 0 && is_space(s.last()) {
        assert(all_ascii(s.take(s.len() - 1))) by {
            assert(forall|i: int|
                0 <= i < s.len() - 1 ==> s.take(s.len() - 1)[i] == s[i]);
        }
        lemma_trim_end_ascii(s.take(s.len() - 1));
    }
}

/// Removing the first line feed keeps a byte sequence ASCII.
pub proof fn lemma_all_ascii_remove_first_lf(s: Seq<u8>)
    requires
        all_ascii(s),
    ensures
        all_ascii(remove_first_lf(s)),
{
    match find_pat(s, seq![10u8]) {
        Some(i) => {
            lemma_find_from(s, seq![10u8], 0);
            let r = s.subrange(0, i) + s.subrange(i + 1, s.len() as int);
            assert forall|k: int| 0 <= k < r.len() implies #[trigger] r[k] < 128 by {
                if k < i {
                    assert(r[k] == s[k]);
                } else {
                    assert(r[k] == s[k + 1]);
                }
            }
        },
        None => {},
    }
}

/// Removing line feeds keeps a byte sequence ASCII.
pub proof fn lemma_all_ascii_remove_all_lf(s: Seq<u8>)
    requires
        all_ascii(s),
    ensures
        all_ascii(remove_all_lf(s)),
    decreases s.len(),
{
    if s.len() > 0 {
        assert(all_ascii(s.skip(1))) by {
            assert(forall|i: int| 0 <= i < s.skip(1).len() ==> s.skip(1)[i] == s[i + 1]);
        }
        lemma_all_ascii_remove_all_lf(s.skip(1));
        if s[0] != 10 {
            let r = seq![s[0]] + remove_all_lf(s.skip(1));
            assert forall|k: int| 0 <= k < r.len() implies #[trigger] r[k] < 128 by {
                if k == 0 {
                    assert(r[0] == s[0]);
                } else {
                    assert(r[k] == remove_all_lf(s.skip(1))[k - 1]);
                }
            }
        }
    }
}

/// Splitting around a pattern keeps a byte sequence ASCII.
pub proof fn lemma_all_ascii_splits(s: Seq<u8>, p: Seq<u8>)
    requires
        all_ascii(s),
    ensures
        all_ascii(after_last(s, p)),
        all_ascii(before_first(s, p)),
{
    lemma_find_last_pat(s, p);
    lemma_find_from(s, p, 0);
    match find_last_pat(s, p) {
        Some(i) => {
            lemma_all_ascii_subrange(s, i + p.len(), s.len() as int);
        },
        None => {},
    }
    match find_pat(s, p) {
        Some(i) => {
            lemma_all_ascii_subrange(s, 0, i);
        },
        None => {},
    }
}

/// Relies on `String::from_utf8`: a vector of ASCII bytes is valid UTF-8 and
/// becomes the string whose characters are exactly those bytes.
#[verifier::external_body]
pub(crate) fn ascii_to_string(v: Vec<u8>) -> (r: String)
    requires
        all_ascii(v@),
    ensures
        r@ == chars_of(v@),
{
    match String::from_utf8(v) {
        Ok(s) => s,
        Err(_) => String::new(),
    }
}



/// A match forces every pattern byte at its offset.
pub proof fn lemma_match_byte(s: Seq<u8>, p: Seq<u8>, i: int, j: int)
    requires
        match_at(s, p, i),
        0 <= j < p.len(),
    ensures
        s[i + j] == p[j],
{
    assert(s.subrange(i, i + p.len())[j] == s[i + j]);
}

/// The first match stands at `pos` when a match stands there and none
/// stands earlier.
pub proof fn lemma_find_at(s: Seq<u8>, p: Seq<u8>, pos: int)
    requires
        match_at(s, p, pos),
        forall|k: int| 0 <= k < pos ==> !match_at(s, p, k),
    ensures
        find_pat(s, p) == Some(pos),
{
    lemma_find_from(s, p, 0);
    match find_pat(s, p) {
        Some(j) => {
            assert(match_at(s, p, j));
        },
        None => {
            assert(!match_at(s, p, pos));
        },
    }
}

/// The last match stands at `pos` when a match stands there and none
/// stands later.
pub proof fn lemma_find_last_at(s: Seq<u8>, p: Seq<u8>, pos: int)
    requires
        match_at(s, p, pos),
        forall|k: int| k > pos ==> !match_at(s, p, k),
    ensures
        find_last_pat(s, p) == Some(pos),
{
    lemma_find_last_pat(s, p);
    match find_last_pat(s, p) {
        Some(j) => {
            assert(match_at(s, p, j));
            if j < pos {
                assert(!match_at(s, p, pos));
            }
        },
        None => {
            assert(!match_at(s, p, pos));
        },
    }
}

/// No pattern matches where its first byte is absent.
pub proof fn lemma_no_match_without_head(s: Seq<u8>, p: Seq<u8>, i: int)
    requires
        p.len() >= 1,
        !(0 <= i && i + p.len() <= s.len()) || s[i] != p[0],
    ensures
        !match_at(s, p, i),
{
    if 0 <= i && i + p.len() <= s.len() {
        if match_at(s, p, i) {
            lemma_match_byte(s, p, i, 0);
        }
    }
}

/// Canonicalising newlines leaves a sequence without carriage returns
/// unchanged.
pub proof fn lemma_normalize_no_cr(s: Seq<u8>)
    requires
        forall|i: int| 0 <= i < s.len() ==> s[i] != 13,
    ensures
        normalize_newlines(s) == s,
    decreases s.len(),
{
    if s.len() > 0 {
        assert(forall|i: int| 0 <= i < s.skip(1).len() ==> #[trigger] s.skip(1)[i] == s[i + 1]);
        lemma_normalize_no_cr(s.skip(1));
        assert(seq![s[0]] + s.skip(1) =~= s);
    }
}

/// Trimming a sequence with exactly one leading whitespace byte and a
/// non-whitespace last byte drops just that first byte.
pub proof fn lemma_trim_single_leading_space(s: Seq<u8>)
    requires
        s.len() >= 2,
        is_space(s[0]),
        !is_space(s[1]),
        !is_space(s.last()),
    ensures
        trim_seq(s) == s.skip(1),
{
    lemma_trim_start_skip(s, 1);
    let t = s.skip(1);
    assert(t.last() == s.last());
    lemma_trim_end_take(t, t.len() as int);
    assert(t.take(t.len() as int) =~= t);
}

/// Removing line feeds concatenates over concatenation.
pub proof fn lemma_remove_all_lf_concat(a: Seq<u8>, b: Seq<u8>)
    ensures
        remove_all_lf(a + b) == remove_all_lf(a) + remove_all_lf(b),
    decreases a.len(),
{
    if a.len() == 0 {
        assert(a + b =~= b);
        assert(remove_all_lf(a) + remove_all_lf(b) =~= remove_all_lf(b));
    } else {
        assert((a + b)[0] == a[0]);
        assert((a + b).skip(1) =~= a.skip(1) + b);
        lemma_remove_all_lf_concat(a.skip(1), b);
        if a[0] != 10 {
            assert(seq![a[0]] + (remove_all_lf(a.skip(1)) + remove_all_lf(b)) =~= (seq![a[0]]
                + remove_all_lf(a.skip(1))) + remove_all_lf(b));
        }
    }
}

/// Removing line feeds leaves a sequence without them unchanged.
pub proof fn lemma_remove_all_lf_id(s: Seq<u8>)
    requires
        forall|i: int| 0 <= i < s.len() ==> s[i] != 10,
    ensures
        remove_all_lf(s) == s,
    decreases s.len(),
{
    if s.len() > 0 {
        assert(forall|i: int| 0 <= i < s.skip(1).len() ==> #[trigger] s.skip(1)[i] == s[i + 1]);
        lemma_remove_all_lf_id(s.skip(1));
        assert(seq![s[0]] + s.skip(1) =~= s);
    }
}

} // verus!
