//! Laws of the library: proved statements that relate the decoder, the
//! formatter and the scanner across calls.

use vstd::prelude::*;
use crate::bytes::is_token_byte;
use crate::decode::digit_run_len;
use crate::decode::digits_value;
use crate::decode::is_hash_seg;
use crate::decode::lemma_digit_run_len_bounds;
use crate::decode::name_hash;
use crate::decode::name_segments;
use crate::decode::token_delimited;
use crate::decode::token_inner;
use crate::decode::token_valid;
use crate::decode::valid_inner;
use crate::escape::escape_match;
use crate::escape::escape_seg;
use crate::render::join_segs;
use crate::render::join_tail;
use crate::render::lemma_join_push;
use crate::render::render_spec;
use crate::render::sep;
use crate::scan::candidate_start;
use crate::stream::lemma_line_end_is;
use crate::stream::stream_spec;
use crate::scan::demangled_token;
use crate::scan::lemma_token_run_len_bounds;
use crate::scan::scan_line;
use crate::scan::token_run_len;

verus! {

/// Is a candidate token prefix (`_ZN`, `ZN` or `_R`) visible at position
/// `i` of `s`?
pub open spec fn candidate_at(s: Seq<u8>, i: int) -> bool {
    (0 <= i && i + 3 <= s.len() && s[i] == 95 && s[i + 1] == 90 && s[i + 2] == 78) || (0 <= i && i
        + 2 <= s.len() && s[i] == 90 && s[i + 1] == 78) || (0 <= i && i + 2 <= s.len() && s[i] == 95
        && s[i + 1] == 82)
}

/// Passthrough idempotence: text that shows no candidate token prefix at
/// any position scans to itself, byte for byte.
pub proof fn lemma_passthrough(s: Seq<u8>, include_hash: bool)
    requires
        forall|i: int| 0 <= i < s.len() ==> !candidate_at(s, i),
    ensures
        scan_line(s, include_hash) == s,
    decreases s.len(),
{
    if s.len() == 0 {
        assert(scan_line(s, include_hash) =~= s);
    } else {
        assert(!candidate_at(s, 0));
        assert(!candidate_start(s));
        let tail = s.skip(1);
        assert(forall|k: int| 0 <= k < tail.len() ==> tail[k] == s[k + 1]);
        assert forall|i: int| 0 <= i < tail.len() implies !candidate_at(tail, i) by {
            assert(!candidate_at(s, i + 1));
        }
        lemma_passthrough(tail, include_hash);
        assert(seq![s[0]] + tail =~= s);
    }
}

proof fn lemma_token_run_concat(a: Seq<u8>, rest: Seq<u8>)
    requires
        rest.len() > 0,
        !is_token_byte(rest[0]),
    ensures
        token_run_len(a + rest) == token_run_len(a),
    decreases a.len(),
{
    if a.len() == 0 {
        assert(a + rest =~= rest);
    } else if !is_token_byte(a[0]) {
        assert((a + rest)[0] == a[0]);
    } else {
        assert((a + rest)[0] == a[0]);
        assert((a + rest).skip(1) =~= a.skip(1) + rest);
        lemma_token_run_concat(a.skip(1), rest);
    }
}

proof fn lemma_candidate_concat(a: Seq<u8>, rest: Seq<u8>)
    requires
        rest.len() > 0,
        !is_token_byte(rest[0]),
    ensures
        candidate_start(a + rest) == candidate_start(a),
{
    let c = a + rest;
    assert(forall|k: int| 0 <= k < a.len() ==> c[k] == a[k]);
    assert(c[a.len() as int] == rest[0]);
    assert(is_token_byte(78) && is_token_byte(82) && is_token_byte(90) && is_token_byte(95));
    if a.len() == 0 {
        assert(c[0] == rest[0]);
        assert(!candidate_start(c));
    } else if a.len() == 1 {
        assert(c[1] == rest[0]);
        assert(!candidate_start(c));
    } else if a.len() == 2 {
        assert(c[2] == rest[0]);
    }
}

/// Streaming without newlines: any non-token delimiter byte splits the
/// scan, so tokens on either side of it decode independently, with no
/// cross-token interference.
pub proof fn lemma_scan_splits_at_delimiter(a: Seq<u8>, d: u8, b: Seq<u8>, include_hash: bool)
    requires
        !is_token_byte(d),
    ensures
        scan_line(a + seq![d] + b, include_hash) == scan_line(a, include_hash) + seq![d]
            + scan_line(b, include_hash),
    decreases a.len(),
{
    let rest = seq![d] + b;
    let c = a + seq![d] + b;
    assert(c =~= a + rest);
    assert(is_token_byte(90) && is_token_byte(95));
    if a.len() == 0 {
        assert(c =~= rest);
        assert(rest[0] == d);
        assert(!candidate_start(rest));
        assert(rest.skip(1) =~= b);
        assert(scan_line(rest, include_hash) == seq![d] + scan_line(b, include_hash));
        assert(scan_line(a, include_hash) + seq![d] + scan_line(b, include_hash) =~= seq![d]
            + scan_line(b, include_hash));
    } else if candidate_start(a) {
        lemma_candidate_concat(a, rest);
        lemma_token_run_concat(a, rest);
        lemma_token_run_len_bounds(a);
        lemma_token_run_len_bounds(a.skip(1));
        assert(is_token_byte(a[0]));
        assert(token_run_len(a) == 1 + token_run_len(a.skip(1)));
        let e = token_run_len(a);
        assert(c.take(e) =~= a.take(e));
        assert(c.skip(e) =~= a.skip(e) + seq![d] + b);
        lemma_scan_splits_at_delimiter(a.skip(e), d, b, include_hash);
        assert(scan_line(c, include_hash) =~= scan_line(a, include_hash) + seq![d] + scan_line(
            b,
            include_hash,
        ));
    } else {
        lemma_candidate_concat(a, rest);
        assert(c[0] == a[0]);
        assert(c.skip(1) =~= a.skip(1) + seq![d] + b);
        lemma_scan_splits_at_delimiter(a.skip(1), d, b, include_hash);
        assert(scan_line(c, include_hash) =~= scan_line(a, include_hash) + seq![d] + scan_line(
            b,
            include_hash,
        ));
    }
}

/// A chunk that holds no newline is processed as a single line: the
/// stream transform and the line transform agree on it.
pub proof fn lemma_stream_single_chunk(s: Seq<u8>, include_hash: bool)
    requires
        forall|i: int| 0 <= i < s.len() ==> s[i] != 10,
    ensures
        stream_spec(s, include_hash) == scan_line(s, include_hash),
{
    if s.len() == 0 {
        assert(stream_spec(s, include_hash) =~= scan_line(s, include_hash));
    } else {
        lemma_line_end_is(s, s.len() as int);
        assert(s.take(s.len() as int) =~= s);
        assert(s.skip(s.len() as int) =~= Seq::<u8>::empty());
        assert(scan_line(s, include_hash) + stream_spec(Seq::<u8>::empty(), include_hash)
            =~= scan_line(s, include_hash));
    }
}

/// All-or-nothing decode: a delimited token whose first length field
/// announces more bytes than its inner text holds is emitted unchanged,
/// never as a partially substituted result.
pub proof fn lemma_length_overrun_unchanged(t: Seq<u8>, include_hash: bool)
    requires
        token_delimited(t),
        digits_value(token_inner(t).take(digit_run_len(token_inner(t)))) > token_inner(t).len()
            - digit_run_len(token_inner(t)),
    ensures
        demangled_token(t, include_hash) == t,
{
    let s = token_inner(t);
    lemma_digit_run_len_bounds(s);
    assert(!valid_inner(s));
}

/// Order-sensitive escape matching, first half: a segment that begins
/// with a marker literal substitutes that marker's replacement and the
/// scan continues right after the literal.
pub proof fn lemma_escape_marker_substitutes(s: Seq<u8>, marker_len: int, rep: u8)
    requires
        s.len() > 0,
        s[0] == 36,
        escape_match(s) == Some((marker_len, rep)),
    ensures
        escape_seg(s) == seq![rep] + escape_seg(s.skip(marker_len)),
{
}

/// Order-sensitive escape matching, second half: an unknown `$`-led
/// marker makes the remainder of the segment come out verbatim.
pub proof fn lemma_escape_unknown_marker_verbatim(s: Seq<u8>)
    requires
        s.len() > 0,
        s[0] == 36,
        escape_match(s) is None,
    ensures
        escape_seg(s) == s,
{
}

/// Hash toggle: with at least one ordinary segment, rendering with the
/// hash appends the separator and the hash segment; rendering without the
/// hash omits both; and without a tagged hash the flag has no effect.
pub proof fn lemma_hash_toggle(segs: Seq<Seq<u8>>, h: Seq<u8>)
    requires
        segs.len() > 0,
    ensures
        render_spec(segs, Some(h), true) == render_spec(segs, Some(h), false) + sep() + h,
        render_spec(segs, Some(h), false) == join_segs(segs),
        forall|b: bool| render_spec(segs, None, b) == join_segs(segs),
{
    lemma_join_push(segs, h);
}

/// No two adjacent bytes of `s` form a candidate prefix pair (`ZN` or
/// `_R`); text with this shape shows no candidate prefix anywhere.
pub open spec fn no_candidate_pair(s: Seq<u8>) -> bool {
    forall|i: int|
        0 <= i && i + 1 < s.len() ==> !((#[trigger] s[i] == 90 && s[i + 1] == 78) || (s[i] == 95
            && s[i + 1] == 82))
}

/// Pair-free text scans to itself.
pub proof fn lemma_no_pair_passthrough(s: Seq<u8>, include_hash: bool)
    requires
        no_candidate_pair(s),
    ensures
        scan_line(s, include_hash) == s,
{
    assert forall|i: int| 0 <= i < s.len() implies !candidate_at(s, i) by {
        assert(i + 1 < s.len() ==> !((s[i] == 90 && s[i + 1] == 78) || (s[i] == 95 && s[i + 1]
            == 82)));
        assert(i + 2 < s.len() ==> !((s[i + 1] == 90 && s[i + 2] == 78) || (s[i + 1] == 95 && s[i
            + 2] == 82)));
    }
    lemma_passthrough(s, include_hash);
}

proof fn lemma_join_tail_no_pair(segs: Seq<Seq<u8>>)
    requires
        forall|k: int| 0 <= k < segs.len() ==> no_candidate_pair(#[trigger] segs[k]),
    ensures
        no_candidate_pair(join_tail(segs)),
        join_tail(segs).len() == 0 || join_tail(segs)[0] == 58,
    decreases segs.len(),
{
    if segs.len() == 0 {
    } else {
        assert(forall|k: int| 0 <= k < segs.skip(1).len() ==> segs.skip(1)[k] == segs[k + 1]);
        lemma_join_tail_no_pair(segs.skip(1));
        let s0 = segs[0];
        let jt = join_tail(segs.skip(1));
        let j = sep() + s0 + jt;
        assert(join_tail(segs) == j);
        assert(no_candidate_pair(s0));
        assert forall|i: int|
            0 <= i && i + 1 < j.len() implies !((#[trigger] j[i] == 90 && j[i + 1] == 78) || (
        j[i] == 95 && j[i + 1] == 82)) by {
            if i == 0 || i + 1 == 1 {
                assert(j[i] == 58);
            } else if i == 1 {
                assert(j[1] == 58);
            } else if i + 1 < 2 + s0.len() {
                assert(j[i] == s0[i - 2]);
                assert(j[i + 1] == s0[i - 1]);
            } else if i + 1 == 2 + s0.len() {
                assert(j[i + 1] == jt[0]);
                assert(jt[0] == 58);
            } else {
                assert(j[i] == jt[i - 2 - s0.len()]);
                assert(j[i + 1] == jt[i + 1 - 2 - s0.len()]);
            }
        }
    }
}

/// A `::`-join of pair-free segments is pair-free: the separator bytes
/// cannot complete a candidate prefix pair across segment boundaries.
pub proof fn lemma_join_no_pair(segs: Seq<Seq<u8>>)
    requires
        forall|k: int| 0 <= k < segs.len() ==> no_candidate_pair(#[trigger] segs[k]),
    ensures
        no_candidate_pair(join_segs(segs)),
{
    if segs.len() == 0 {
    } else {
        assert(forall|k: int| 0 <= k < segs.skip(1).len() ==> segs.skip(1)[k] == segs[k + 1]);
        lemma_join_tail_no_pair(segs.skip(1));
        let s0 = segs[0];
        let jt = join_tail(segs.skip(1));
        let j = s0 + jt;
        assert(join_segs(segs) == j);
        assert(no_candidate_pair(s0));
        assert forall|i: int|
            0 <= i && i + 1 < j.len() implies !((#[trigger] j[i] == 90 && j[i + 1] == 78) || (
        j[i] == 95 && j[i + 1] == 82)) by {
            if i + 1 < s0.len() {
                assert(j[i] == s0[i]);
                assert(j[i + 1] == s0[i + 1]);
            } else if i + 1 == s0.len() {
                assert(j[i + 1] == jt[0]);
                assert(jt[0] == 58);
            } else {
                assert(j[i] == jt[i - s0.len()]);
                assert(j[i + 1] == jt[i + 1 - s0.len()]);
            }
        }
    }
}

/// A hash segment holds only `h` and hexadecimal digits, so it is
/// pair-free.
pub proof fn lemma_hash_seg_no_pair(h: Seq<u8>)
    requires
        is_hash_seg(h),
    ensures
        no_candidate_pair(h),
{
    assert forall|i: int|
        0 <= i && i + 1 < h.len() implies !((#[trigger] h[i] == 90 && h[i + 1] == 78) || (h[i]
        == 95 && h[i + 1] == 82)) by {
        if i == 0 {
            assert(h[0] == 104);
        }
    }
}

/// Round-trip stability: the rendered output of a decoded token rescans
/// to itself, provided no decoded segment contains a candidate prefix
/// pair. A decoded segment may itself spell a complete mangled token, and
/// then a rescan decodes further; the hypothesis rules exactly that out.
pub proof fn lemma_rescan_stable(t: Seq<u8>, include_hash: bool)
    requires
        token_valid(t),
        forall|k: int|
            0 <= k < name_segments(t).len() ==> no_candidate_pair(#[trigger] name_segments(t)[k]),
    ensures
        scan_line(demangled_token(t, include_hash), include_hash) == demangled_token(
            t,
            include_hash,
        ),
{
    let segs = name_segments(t);
    let out = demangled_token(t, include_hash);
    match name_hash(t) {
        Some(h) => {
            assert(is_hash_seg(h));
            lemma_hash_seg_no_pair(h);
            if include_hash {
                assert(forall|k: int|
                    0 <= k < segs.push(h).len() ==> no_candidate_pair(#[trigger] segs.push(h)[k]));
                lemma_join_no_pair(segs.push(h));
                assert(out == join_segs(segs.push(h)));
            } else {
                lemma_join_no_pair(segs);
                assert(out == join_segs(segs));
            }
        },
        None => {
            lemma_join_no_pair(segs);
            assert(out == join_segs(segs));
        },
    }
    lemma_no_pair_passthrough(out, include_hash);
}

} // verus!
