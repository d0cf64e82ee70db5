//! The token decoder: structural validation of one candidate token and
//! extraction of its length-prefixed, escape-encoded path segments.
//!
//! A token is delimited by the prefix `_ZN` (or the bare `ZN` left by
//! prefix-stripping symbol tables) and the suffix `E`. Its inner text is a
//! sequence of (decimal length, segment body) pairs that must exhaust it
//! exactly; a zero length field is the terminal marker and is valid only
//! immediately before the end. Decoding is all-or-nothing: a structurally
//! invalid token yields `None` and its bytes pass through unchanged.

use vstd::prelude::*;
use crate::bytes::check_ascii_digit;
use crate::bytes::is_ascii_digit;
use crate::bytes::is_lower_hex_digit;
use crate::bytes::check_lower_hex_digit;
use crate::bytes::subvec;
use crate::escape::escape_seg;
use crate::escape::escape_segment;

verus! {

/// Length of the maximal run of ASCII digits at the head of `s`.
pub open spec fn digit_run_len(s: Seq<u8>) -> int
    decreases s.len(),
{
    if s.len() == 0 || !is_ascii_digit(s[0]) {
        0
    } else {
        1 + digit_run_len(s.skip(1))
    }
}

/// Value of a run of ASCII digits read as an unsigned decimal number.
pub open spec fn digits_value(s: Seq<u8>) -> int
    decreases s.len(),
{
    if s.len() == 0 {
        0
    } else {
        digits_value(s.take(s.len() - 1)) * 10 + (s[s.len() - 1] - 48)
    }
}

/// The inner text parses as (length, segment) pairs that exactly exhaust
/// it. A length field of zero is valid only as the terminal marker, right
/// before the end of the inner text.
pub open spec fn valid_inner(s: Seq<u8>) -> bool
    decreases s.len() via valid_inner_decreases
{
    if s.len() == 0 {
        true
    } else {
        let d = digit_run_len(s);
        let n = digits_value(s.take(d));
        if d == 0 {
            false
        } else if n == 0 {
            d == s.len()
        } else if n < 0 || d + n > s.len() {
            // a digit run's value is never negative; the guard keeps the
            // recursion total over arbitrary byte text
            false
        } else {
            valid_inner(s.skip(d + n))
        }
    }
}

#[via_fn]
proof fn valid_inner_decreases(s: Seq<u8>) {
    lemma_digit_run_len_bounds(s);
}

/// The decoded segment texts of an inner text, in path order, with the
/// escape substitution already applied to each.
pub open spec fn decoded_inner_segments(s: Seq<u8>) -> Seq<Seq<u8>>
    decreases s.len() via decoded_inner_segments_decreases
{
    if s.len() == 0 {
        Seq::empty()
    } else {
        let d = digit_run_len(s);
        let n = digits_value(s.take(d));
        if d == 0 || n <= 0 || d + n > s.len() {
            Seq::empty()
        } else {
            seq![escape_seg(s.subrange(d, d + n))] + decoded_inner_segments(s.skip(d + n))
        }
    }
}

#[via_fn]
proof fn decoded_inner_segments_decreases(s: Seq<u8>) {
    lemma_digit_run_len_bounds(s);
}

/// The token carries the recognized prefix, the `E` suffix, and meets the
/// minimal length threshold of its form.
pub open spec fn token_delimited(t: Seq<u8>) -> bool {
    if t.len() > 4 && t[0] == 95 && t[1] == 90 && t[2] == 78 {
        t[t.len() - 1] == 69
    } else if t.len() > 3 && t[0] == 90 && t[1] == 78 {
        t[t.len() - 1] == 69
    } else {
        false
    }
}

/// The inner text of a delimited token, prefix and suffix stripped.
pub open spec fn token_inner(t: Seq<u8>) -> Seq<u8> {
    if t.len() > 4 && t[0] == 95 && t[1] == 90 && t[2] == 78 {
        t.subrange(3, t.len() - 1)
    } else if t.len() > 3 && t[0] == 90 && t[1] == 78 {
        t.subrange(2, t.len() - 1)
    } else {
        Seq::empty()
    }
}

/// A token decodes if and only if it is delimited and its inner text is
/// structurally valid.
pub open spec fn token_valid(t: Seq<u8>) -> bool {
    token_delimited(t) && valid_inner(token_inner(t))
}

/// A hash segment: `h` followed by exactly 16 lowercase hexadecimal digits.
pub open spec fn is_hash_seg(s: Seq<u8>) -> bool {
    s.len() == 17 && s[0] == 104 && (forall|i: int| 1 <= i < 17 ==> is_lower_hex_digit(s[i]))
}

/// The ordinary segments of a decoded token: all decoded segments, with a
/// trailing hash segment split off.
pub open spec fn name_segments(t: Seq<u8>) -> Seq<Seq<u8>> {
    let segs = decoded_inner_segments(token_inner(t));
    if segs.len() > 0 && is_hash_seg(segs.last()) {
        segs.drop_last()
    } else {
        segs
    }
}

/// The trailing hash segment of a decoded token, if its last segment
/// matches the hash pattern.
pub open spec fn name_hash(t: Seq<u8>) -> Option<Seq<u8>> {
    let segs = decoded_inner_segments(token_inner(t));
    if segs.len() > 0 && is_hash_seg(segs.last()) {
        Some(segs.last())
    } else {
        None
    }
}

/// A decoded qualified name: the rendered segment texts in path order,
/// most-general first, and the trailing hash segment if one was tagged.
pub struct DecodedName {
    pub segments: Vec<Vec<u8>>,
    pub hash: Option<Vec<u8>>,
}

impl DecodedName {
    /// The segment texts as mathematical sequences.
    pub open spec fn segs(&self) -> Seq<Seq<u8>> {
        self.segments@.map_values(|v: Vec<u8>| v@)
    }

    /// The tagged hash segment as a mathematical sequence.
    pub open spec fn hash_seq(&self) -> Option<Seq<u8>> {
        match self.hash {
            Some(h) => Some(h@),
            None => None,
        }
    }

    /// Well-formed: a tagged hash segment matches the hash pattern.
    pub open spec fn wf(&self) -> bool {
        match self.hash {
            Some(h) => is_hash_seg(h@),
            None => true,
        }
    }
}

pub proof fn lemma_digit_run_len_bounds(s: Seq<u8>)
    ensures
        0 <= digit_run_len(s) <= s.len(),
        forall|i: int| 0 <= i < digit_run_len(s) ==> is_ascii_digit(s[i]),
        digit_run_len(s) < s.len() ==> !is_ascii_digit(s[digit_run_len(s)]),
    decreases s.len(),
{
    if s.len() == 0 || !is_ascii_digit(s[0]) {
    } else {
        lemma_digit_run_len_bounds(s.skip(1));
        let d = digit_run_len(s);
        assert forall|i: int| 0 <= i < d implies is_ascii_digit(s[i]) by {
            if i > 0 {
                assert(s.skip(1)[i - 1] == s[i]);
                assert(is_ascii_digit(s.skip(1)[i - 1]));
            }
        }
        if d < s.len() {
            assert(s.skip(1)[d - 1] == s[d]);
        }
    }
}

/// A stretch of digits stopped by the end or by a non-digit is exactly the
/// maximal digit run.
pub proof fn lemma_digit_run_len_is(s: Seq<u8>, d: int)
    requires
        0 <= d <= s.len(),
        forall|i: int| 0 <= i < d ==> is_ascii_digit(s[i]),
        d == s.len() || !is_ascii_digit(s[d]),
    ensures
        digit_run_len(s) == d,
    decreases d,
{
    if d == 0 {
    } else {
        let tail = s.skip(1);
        assert forall|i: int| 0 <= i < d - 1 implies is_ascii_digit(tail[i]) by {
            assert(tail[i] == s[i + 1]);
        }
        assert(d - 1 == tail.len() || !is_ascii_digit(tail[d - 1])) by {
            if d - 1 < tail.len() {
                assert(tail[d - 1] == s[d]);
            }
        }
        lemma_digit_run_len_is(tail, d - 1);
    }
}

pub proof fn lemma_digits_value_nonneg(s: Seq<u8>)
    requires
        forall|i: int| 0 <= i < s.len() ==> is_ascii_digit(s[i]),
    ensures
        digits_value(s) >= 0,
    decreases s.len(),
{
    if s.len() == 0 {
    } else {
        assert(forall|i: int| 0 <= i < s.len() - 1 ==> s.take(s.len() - 1)[i] == s[i]);
        lemma_digits_value_nonneg(s.take(s.len() - 1));
    }
}

/// Reading more digits can only grow the decimal value.
pub proof fn lemma_digits_value_mono(s: Seq<u8>, j: int)
    requires
        0 <= j <= s.len(),
        forall|i: int| 0 <= i < s.len() ==> is_ascii_digit(s[i]),
    ensures
        0 <= digits_value(s.take(j)) <= digits_value(s),
    decreases s.len(),
{
    assert(forall|i: int| 0 <= i < j ==> s.take(j)[i] == s[i]);
    lemma_digits_value_nonneg(s.take(j));
    if j == s.len() {
        assert(s.take(j) =~= s);
    } else {
        let head = s.take(s.len() - 1);
        assert(forall|i: int| 0 <= i < head.len() ==> head[i] == s[i]);
        lemma_digits_value_mono(head, j);
        assert(head.take(j) =~= s.take(j));
        lemma_digits_value_nonneg(head);
        assert(digits_value(s) == digits_value(head) * 10 + (s[s.len() - 1] - 48));
    }
}

/// Reads the length field at `pos`: the end of its digit run and its
/// value. Returns `None` when the announced length already exceeds the
/// whole inner text, which makes any parse from `pos` invalid.
fn read_length(inner: &Vec<u8>, pos: usize) -> (r: Option<(usize, usize)>)
    requires
        pos <= inner@.len(),
    ensures
        match r {
            Some(jv) => {
                &&& pos <= jv.0 <= inner@.len()
                &&& digit_run_len(inner@.skip(pos as int)) == jv.0 - pos
                &&& digits_value(inner@.skip(pos as int).take(jv.0 - pos)) == jv.1 as int
                &&& jv.1 <= inner@.len()
            },
            None => !valid_inner(inner@.skip(pos as int)),
        },
{
    let n = inner.len();
    let ghost s = inner@.skip(pos as int);
    proof {
        assert(s.len() == n - pos);
        assert(forall|k: int| 0 <= k < s.len() ==> s[k] == inner@[pos + k]);
    }
    let mut j: usize = pos;
    while j < n && check_ascii_digit(inner[j])
        invariant
            pos <= j <= n,
            n == inner@.len(),
            forall|i: int| pos <= i < j ==> is_ascii_digit(inner@[i]),
        decreases n - j,
    {
        j = j + 1;
    }
    proof {
        assert(forall|i: int| 0 <= i < j - pos ==> s[i] == inner@[pos + i]);
        lemma_digit_run_len_is(s, j - pos as int);
    }
    let ghost run = s.take(j - pos as int);
    proof {
        assert(forall|i: int| 0 <= i < run.len() ==> run[i] == inner@[pos + i]);
    }
    let mut v: u128 = 0;
    let mut k: usize = pos;
    while k < j
        invariant
            pos <= k <= j <= n,
            n == inner@.len(),
            run == inner@.skip(pos as int).take(j - pos as int),
            run.len() == j - pos,
            forall|i: int| 0 <= i < run.len() ==> run[i] == inner@[pos + i] && is_ascii_digit(
                inner@[pos + i],
            ),
            v as int == digits_value(run.take(k - pos as int)),
            v <= n as u128,
        decreases j - k,
    {
        let d8 = inner[k];
        proof {
            assert(run[k - pos as int] == inner@[k as int] && is_ascii_digit(inner@[k as int]));
        }
        let vnew = v * 10 + ((d8 - 48) as u128);
        proof {
            let prefix = run.take(k + 1 - pos as int);
            assert(prefix.take(prefix.len() - 1) =~= run.take(k - pos as int));
            assert(prefix[prefix.len() - 1] == inner@[k as int]);
            assert(digits_value(prefix) == digits_value(run.take(k - pos as int)) * 10 + (
            inner@[k as int] - 48));
        }
        if vnew > n as u128 {
            proof {
                lemma_digits_value_mono(run, k + 1 - pos as int);
                let d = digit_run_len(s);
                assert(d == j - pos);
                assert(digits_value(s.take(d)) == digits_value(run));
                assert(digits_value(run) >= vnew as int);
                assert(digits_value(run) > n - pos);
                assert(!valid_inner(s));
            }
            return None;
        }
        v = vnew;
        k = k + 1;
    }
    proof {
        assert(run.take(j - pos as int) =~= run);
        assert(v as usize as u128 == v);
    }
    Some((j, v as usize))
}

/// Structural preflight over the inner text: does it parse as
/// length-prefixed segments that exactly exhaust it?
fn check_inner(inner: &Vec<u8>) -> (r: bool)
    ensures
        r == valid_inner(inner@),
{
    let n = inner.len();
    let mut pos: usize = 0;
    proof {
        assert(inner@.skip(0) =~= inner@);
    }
    while pos < n
        invariant
            pos <= n,
            n == inner@.len(),
            valid_inner(inner@) == valid_inner(inner@.skip(pos as int)),
        decreases n - pos,
    {
        let ghost s = inner@.skip(pos as int);
        match read_length(inner, pos) {
            None => {
                return false;
            },
            Some(jv) => {
                let j = jv.0;
                let v = jv.1;
                let ghost d = j - pos as int;
                if j == pos {
                    // no digits where a length field is expected
                    return false;
                }
                if v == 0 {
                    // the zero terminal marker: valid only right before the end
                    return j == n;
                }
                if v > n - j {
                    // the announced length exceeds what remains
                    return false;
                }
                let newpos = j + v;
                proof {
                    assert(valid_inner(s) == valid_inner(s.skip(d + v as int)));
                    assert(s.skip(d + v as int) =~= inner@.skip(newpos as int));
                }
                pos = newpos;
            },
        }
    }
    proof {
        assert(inner@.skip(n as int) =~= Seq::<u8>::empty());
    }
    true
}

/// Emits the decoded segments of an inner text that passed the preflight.
fn extract_segments(inner: &Vec<u8>) -> (out: Vec<Vec<u8>>)
    requires
        valid_inner(inner@),
    ensures
        out@.map_values(|v: Vec<u8>| v@) == decoded_inner_segments(inner@),
{
    let n = inner.len();
    let mut out: Vec<Vec<u8>> = Vec::new();
    let mut pos: usize = 0;
    let ghost f = |v: Vec<u8>| v@;
    proof {
        assert(inner@.skip(0) =~= inner@);
        assert(out@.map_values(f) =~= Seq::<Seq<u8>>::empty());
        assert(Seq::<Seq<u8>>::empty() + decoded_inner_segments(inner@) =~= decoded_inner_segments(
            inner@,
        ));
    }
    while pos < n
        invariant
            pos <= n,
            n == inner@.len(),
            valid_inner(inner@.skip(pos as int)),
            decoded_inner_segments(inner@) == out@.map_values(|v: Vec<u8>| v@)
                + decoded_inner_segments(inner@.skip(pos as int)),
        decreases n - pos,
    {
        let ghost s = inner@.skip(pos as int);
        match read_length(inner, pos) {
            None => {
                // the preflight ruled this out
                proof {
                    assert(false);
                }
            },
            Some(jv) => {
                let j = jv.0;
                let v = jv.1;
                let ghost d = j - pos as int;
                if j == pos {
                    proof {
                        assert(!valid_inner(s));
                        assert(false);
                    }
                }
                if v == 0 {
                    // terminal marker: no further segments
                    proof {
                        assert(d == s.len());
                        assert(decoded_inner_segments(s) =~= Seq::<Seq<u8>>::empty());
                        assert(out@.map_values(|vv: Vec<u8>| vv@) + Seq::<Seq<u8>>::empty()
                            =~= out@.map_values(|vv: Vec<u8>| vv@));
                    }
                    return out;
                }
                if v > n - j {
                    proof {
                        assert(!valid_inner(s));
                        assert(false);
                    }
                }
                let body = subvec(inner, j, j + v);
                let seg = escape_segment(&body);
                let ghost oldmap = out@.map_values(|vv: Vec<u8>| vv@);
                out.push(seg);
                let newpos = j + v;
                proof {
                    assert(body@ =~= s.subrange(d, d + v as int));
                    assert(decoded_inner_segments(s) == seq![escape_seg(s.subrange(d, d + v as int))]
                        + decoded_inner_segments(s.skip(d + v as int)));
                    assert(s.skip(d + v as int) =~= inner@.skip(newpos as int));
                    assert(out@.map_values(|vv: Vec<u8>| vv@) =~= oldmap.push(seg@));
                    assert(oldmap + (seq![seg@] + decoded_inner_segments(inner@.skip(newpos as int)))
                        =~= oldmap.push(seg@) + decoded_inner_segments(inner@.skip(newpos as int)));
                    assert(valid_inner(s) == valid_inner(inner@.skip(newpos as int)));
                }
                pos = newpos;
            },
        }
    }
    proof {
        assert(inner@.skip(n as int) =~= Seq::<u8>::empty());
        assert(out@.map_values(|vv: Vec<u8>| vv@) + decoded_inner_segments(Seq::<u8>::empty())
            =~= out@.map_values(|vv: Vec<u8>| vv@));
    }
    out
}

/// Does this decoded segment match the hash pattern?
fn check_hash_seg(s: &Vec<u8>) -> (r: bool)
    ensures
        r == is_hash_seg(s@),
{
    if s.len() != 17 {
        return false;
    }
    if s[0] != 104 {
        return false;
    }
    let mut i: usize = 1;
    while i < 17
        invariant
            1 <= i <= 17,
            s@.len() == 17,
            forall|k: int| 1 <= k < i ==> is_lower_hex_digit(s@[k]),
        decreases 17 - i,
    {
        if !check_lower_hex_digit(s[i]) {
            return false;
        }
        i = i + 1;
    }
    true
}

/// Decodes one candidate token into a structured name. Returns `None`
/// exactly when the token is structurally invalid, in which case the
/// caller must emit the original bytes unchanged.
pub fn decode(token: &Vec<u8>) -> (r: Option<DecodedName>)
    ensures
        r is Some <==> token_valid(token@),
        match r {
            Some(name) => name.wf() && name.segs() == name_segments(token@) && name.hash_seq()
                == name_hash(token@),
            None => true,
        },
{
    let len = token.len();
    let start: usize;
    if len > 4 && token[0] == 95 && token[1] == 90 && token[2] == 78 {
        if token[len - 1] != 69 {
            return None;
        }
        start = 3;
    } else if len > 3 && token[0] == 90 && token[1] == 78 {
        if token[len - 1] != 69 {
            return None;
        }
        start = 2;
    } else {
        return None;
    }
    let inner = subvec(token, start, len - 1);
    proof {
        assert(inner@ =~= token_inner(token@));
    }
    if !check_inner(&inner) {
        return None;
    }
    let mut segments = extract_segments(&inner);
    let ghost all = decoded_inner_segments(token_inner(token@));
    let mut hash: Option<Vec<u8>> = None;
    let mut tagged = false;
    if segments.len() > 0 {
        tagged = check_hash_seg(&segments[segments.len() - 1]);
        proof {
            assert(segments@.map_values(|vv: Vec<u8>| vv@).last() == segments@[segments@.len()
                - 1]@);
        }
    }
    if tagged {
        match segments.pop() {
            Some(h) => {
                hash = Some(h);
            },
            None => {},
        }
        proof {
            assert(segments@.map_values(|vv: Vec<u8>| vv@) =~= all.drop_last());
        }
    }
    let name = DecodedName { segments, hash };
    proof {
        assert(name.segs() == name_segments(token@));
        assert(name.hash_seq() == name_hash(token@));
    }
    Some(name)
}

} // verus!
