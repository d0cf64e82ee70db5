//! The stream scanner: finds candidate token spans inside one line of
//! arbitrary text, hands each to the decoder, and stitches the line back
//! together. Bytes outside recognized spans pass through unchanged.

use vstd::prelude::*;
use crate::bytes::check_token_byte;
use crate::bytes::is_token_byte;
use crate::bytes::push_all;
use crate::bytes::subvec;
use crate::decode::decode;
use crate::decode::name_hash;
use crate::decode::name_segments;
use crate::decode::token_valid;
use crate::render::render;
use crate::render::render_spec;

verus! {

/// Does a candidate token span begin at the head of `s`? Candidates open
/// with `_ZN`, with the bare `ZN` left by prefix-stripping symbol tables,
/// or with `_R`, the newer scheme, which is recognized so that its spans
/// stay intact but is not decoded here.
pub open spec fn candidate_start(s: Seq<u8>) -> bool {
    (s.len() >= 3 && s[0] == 95 && s[1] == 90 && s[2] == 78) || (s.len() >= 2 && s[0] == 90 && s[1]
        == 78) || (s.len() >= 2 && s[0] == 95 && s[1] == 82)
}

/// Length of the maximal run of token bytes at the head of `s`; a
/// candidate span is such a run.
pub open spec fn token_run_len(s: Seq<u8>) -> int
    decreases s.len(),
{
    if s.len() == 0 || !is_token_byte(s[0]) {
        0
    } else {
        1 + token_run_len(s.skip(1))
    }
}

pub proof fn lemma_token_run_len_bounds(s: Seq<u8>)
    ensures
        0 <= token_run_len(s) <= s.len(),
        forall|i: int| 0 <= i < token_run_len(s) ==> is_token_byte(s[i]),
        token_run_len(s) < s.len() ==> !is_token_byte(s[token_run_len(s)]),
    decreases s.len(),
{
    if s.len() == 0 || !is_token_byte(s[0]) {
    } else {
        lemma_token_run_len_bounds(s.skip(1));
        let e = token_run_len(s);
        assert forall|i: int| 0 <= i < e implies is_token_byte(s[i]) by {
            if i > 0 {
                assert(s.skip(1)[i - 1] == s[i]);
                assert(is_token_byte(s.skip(1)[i - 1]));
            }
        }
        if e < s.len() {
            assert(s.skip(1)[e - 1] == s[e]);
        }
    }
}

/// A stretch of token bytes stopped by the end or by a non-token byte is
/// exactly the maximal token run.
pub proof fn lemma_token_run_len_is(s: Seq<u8>, e: int)
    requires
        0 <= e <= s.len(),
        forall|i: int| 0 <= i < e ==> is_token_byte(s[i]),
        e == s.len() || !is_token_byte(s[e]),
    ensures
        token_run_len(s) == e,
    decreases e,
{
    if e == 0 {
    } else {
        let tail = s.skip(1);
        assert forall|i: int| 0 <= i < e - 1 implies is_token_byte(tail[i]) by {
            assert(tail[i] == s[i + 1]);
        }
        assert(e - 1 == tail.len() || !is_token_byte(tail[e - 1])) by {
            if e - 1 < tail.len() {
                assert(tail[e - 1] == s[e]);
            }
        }
        lemma_token_run_len_is(tail, e - 1);
    }
}

/// What one candidate span becomes in the output: the rendered decoded
/// name when the span is a valid token, else the span itself, unchanged.
pub open spec fn demangled_token(t: Seq<u8>, include_hash: bool) -> Seq<u8> {
    if token_valid(t) {
        render_spec(name_segments(t), name_hash(t), include_hash)
    } else {
        t
    }
}

/// The whole line transform: every maximal candidate span is replaced by
/// its demangled text, every byte outside such spans passes through.
pub open spec fn scan_line(s: Seq<u8>, include_hash: bool) -> Seq<u8>
    decreases s.len() via scan_line_decreases
{
    if s.len() == 0 {
        Seq::empty()
    } else if candidate_start(s) {
        let e = token_run_len(s);
        demangled_token(s.take(e), include_hash) + scan_line(s.skip(e), include_hash)
    } else {
        seq![s[0]] + scan_line(s.skip(1), include_hash)
    }
}

#[via_fn]
proof fn scan_line_decreases(s: Seq<u8>, include_hash: bool) {
    if s.len() > 0 && candidate_start(s) {
        lemma_token_run_len_bounds(s);
        lemma_token_run_len_bounds(s.skip(1));
        assert(is_token_byte(s[0]));
        assert(token_run_len(s) == 1 + token_run_len(s.skip(1)));
    }
}

/// Scans one line, replacing every candidate token span that decodes and
/// copying all other bytes, the line terminator included, byte-for-byte.
pub fn demangle_line(line: &Vec<u8>, include_hash: bool) -> (out: Vec<u8>)
    ensures
        out@ == scan_line(line@, include_hash),
{
    let n = line.len();
    let mut out: Vec<u8> = Vec::new();
    let mut i: usize = 0;
    proof {
        assert(line@.skip(0) =~= line@);
        assert(Seq::<u8>::empty() + scan_line(line@, include_hash) =~= scan_line(
            line@,
            include_hash,
        ));
    }
    while i < n
        invariant
            i <= n,
            scan_line(line@, include_hash) == out@ + scan_line(
                line@.skip(i as int),
                include_hash,
            ),
        decreases n - i,
    {
        let ghost s = line@.skip(i as int);
        proof {
            assert(forall|k: int| 0 <= k < s.len() ==> s[k] == line@[i + k]);
        }
        let cand = (n - i >= 3 && line[i] == 95 && line[i + 1] == 90 && line[i + 2] == 78) || (n - i
            >= 2 && line[i] == 90 && line[i + 1] == 78) || (n - i >= 2 && line[i] == 95 && line[i
            + 1] == 82);
        proof {
            assert(cand == candidate_start(s));
        }
        if cand {
            let mut j: usize = i;
            while j < n && check_token_byte(line[j])
                invariant
                    i <= j <= n,
                    forall|k: int| i <= k < j ==> is_token_byte(line@[k]),
                decreases n - j,
            {
                j = j + 1;
            }
            proof {
                assert(forall|k: int| 0 <= k < j - i ==> s[k] == line@[i + k]);
                lemma_token_run_len_is(s, j - i as int);
            }
            let token = subvec(line, i, j);
            proof {
                assert(token@ =~= s.take(j - i as int));
            }
            match decode(&token) {
                Some(name) => {
                    let rendered = render(&name, include_hash);
                    push_all(&mut out, &rendered);
                    proof {
                        assert(rendered@ == demangled_token(token@, include_hash));
                    }
                },
                None => {
                    push_all(&mut out, &token);
                    proof {
                        assert(token@ == demangled_token(token@, include_hash));
                    }
                },
            }
            proof {
                assert(scan_line(s, include_hash) == demangled_token(
                    s.take(j - i as int),
                    include_hash,
                ) + scan_line(s.skip(j - i as int), include_hash));
                assert(s.skip(j - i as int) =~= line@.skip(j as int));
                assert(out@ + scan_line(line@.skip(j as int), include_hash) =~= scan_line(
                    line@,
                    include_hash,
                ));
            }
            i = j;
        } else {
            out.push(line[i]);
            proof {
                assert(scan_line(s, include_hash) == seq![s[0]] + scan_line(
                    s.skip(1),
                    include_hash,
                ));
                assert(s.skip(1) =~= line@.skip(i as int + 1));
                assert(out@ + scan_line(line@.skip(i as int + 1), include_hash) =~= scan_line(
                    line@,
                    include_hash,
                ));
            }
            i = i + 1;
        }
    }
    proof {
        assert(line@.skip(n as int) =~= Seq::<u8>::empty());
    }
    out
}

} // verus!
