//! Stream processing, pure core: the transform over a whole input split
//! into newline-terminated lines, and the discrete-name variant that
//! decodes one caller-supplied name per output line. Reading bytes in and
//! writing bytes out stay with the caller.

use vstd::prelude::*;
use crate::bytes::push_all;
use crate::bytes::subvec;
use crate::decode::decode;
use crate::render::render;
use crate::scan::demangle_line;
use crate::scan::demangled_token;
use crate::scan::scan_line;

verus! {

/// Index just past the first newline of `s`, or the length of `s` when no
/// newline is left: the extent of the first line, terminator included.
pub open spec fn line_end(s: Seq<u8>) -> int
    decreases s.len(),
{
    if s.len() == 0 {
        0
    } else if s[0] == 10 {
        1
    } else {
        1 + line_end(s.skip(1))
    }
}

pub proof fn lemma_line_end_bounds(s: Seq<u8>)
    ensures
        0 <= line_end(s) <= s.len(),
        s.len() > 0 ==> line_end(s) >= 1,
    decreases s.len(),
{
    if s.len() == 0 || s[0] == 10 {
    } else {
        lemma_line_end_bounds(s.skip(1));
    }
}

/// A stretch free of newlines, stopped by a newline or by the end of the
/// text, reaches exactly to the end of the first line.
pub proof fn lemma_line_end_is(s: Seq<u8>, k: int)
    requires
        0 <= k <= s.len(),
        forall|i: int| 0 <= i < k - 1 ==> s[i] != 10,
        k == s.len() || (k >= 1 && s[k - 1] == 10),
    ensures
        line_end(s) == k,
    decreases k,
{
    if k == 0 {
    } else if s[0] == 10 {
        assert(k == 1);
    } else {
        let tail = s.skip(1);
        assert forall|i: int| 0 <= i < k - 2 implies tail[i] != 10 by {
            assert(tail[i] == s[i + 1]);
        }
        assert(k - 1 == tail.len() || (k - 1 >= 1 && tail[k - 2] == 10)) by {
            if k < s.len() || s[k - 1] == 10 {
                assert(tail[k - 2] == s[k - 1]);
            }
        }
        lemma_line_end_is(tail, k - 1);
    }
}

/// The whole stream transform: the input splits into lines after each
/// newline byte, each line is scanned, and the results concatenate.
pub open spec fn stream_spec(s: Seq<u8>, include_hash: bool) -> Seq<u8>
    decreases s.len() via stream_spec_decreases
{
    if s.len() == 0 {
        Seq::empty()
    } else {
        let k = line_end(s);
        scan_line(s.take(k), include_hash) + stream_spec(s.skip(k), include_hash)
    }
}

#[via_fn]
proof fn stream_spec_decreases(s: Seq<u8>, include_hash: bool) {
    lemma_line_end_bounds(s);
}

/// Processes a whole input as a stream of newline-terminated lines: each
/// line is scanned on its own and every terminator survives byte-for-byte.
/// A final line without a terminator is processed like any other.
pub fn demangle_stream(input: &Vec<u8>, include_hash: bool) -> (out: Vec<u8>)
    ensures
        out@ == stream_spec(input@, include_hash),
{
    let n = input.len();
    let mut out: Vec<u8> = Vec::new();
    let mut start: usize = 0;
    proof {
        assert(input@.skip(0) =~= input@);
        assert(Seq::<u8>::empty() + stream_spec(input@, include_hash) =~= stream_spec(
            input@,
            include_hash,
        ));
    }
    while start < n
        invariant
            start <= n,
            stream_spec(input@, include_hash) == out@ + stream_spec(
                input@.skip(start as int),
                include_hash,
            ),
        decreases n - start,
    {
        let ghost s = input@.skip(start as int);
        proof {
            assert(forall|k: int| 0 <= k < s.len() ==> s[k] == input@[start + k]);
        }
        let mut j: usize = start;
        while j < n && input[j] != 10
            invariant
                start <= j <= n,
                forall|k: int| start <= k < j ==> input@[k] != 10,
            decreases n - j,
        {
            j = j + 1;
        }
        if j < n {
            // include the newline in the line just found
            j = j + 1;
        }
        proof {
            lemma_line_end_is(s, j - start as int);
        }
        let linev = subvec(input, start, j);
        let scanned = demangle_line(&linev, include_hash);
        push_all(&mut out, &scanned);
        proof {
            assert(linev@ =~= s.take(j - start as int));
            assert(stream_spec(s, include_hash) == scan_line(s.take(j - start as int), include_hash)
                + stream_spec(s.skip(j - start as int), include_hash));
            assert(s.skip(j - start as int) =~= input@.skip(j as int));
            assert(out@ + stream_spec(input@.skip(j as int), include_hash) =~= stream_spec(
                input@,
                include_hash,
            ));
        }
        start = j;
    }
    proof {
        assert(input@.skip(n as int) =~= Seq::<u8>::empty());
    }
    out
}

/// The discrete-name transform: each raw name decodes on its own, with no
/// line scanning, and becomes one newline-terminated output line.
pub open spec fn names_spec(names: Seq<Seq<u8>>, include_hash: bool) -> Seq<u8>
    decreases names.len(),
{
    if names.len() == 0 {
        Seq::empty()
    } else {
        demangled_token(names[0], include_hash) + seq![10u8] + names_spec(
            names.skip(1),
            include_hash,
        )
    }
}

/// Decodes a list of raw names, one per output line, honoring the hash
/// toggle. A name that fails to decode is emitted unchanged.
pub fn demangle_names(names: &Vec<Vec<u8>>, include_hash: bool) -> (out: Vec<u8>)
    ensures
        out@ == names_spec(names@.map_values(|v: Vec<u8>| v@), include_hash),
{
    let ghost view = names@.map_values(|v: Vec<u8>| v@);
    let n = names.len();
    let mut out: Vec<u8> = Vec::new();
    let mut i: usize = 0;
    proof {
        assert(view.skip(0) =~= view);
        assert(Seq::<u8>::empty() + names_spec(view, include_hash) =~= names_spec(
            view,
            include_hash,
        ));
    }
    while i < n
        invariant
            i <= n,
            names_spec(view, include_hash) == out@ + names_spec(
                view.skip(i as int),
                include_hash,
            ),
        decreases n - i,
    {
        let nm = &names[i];
        proof {
            assert(view.skip(i as int)[0] == names@[i as int]@);
        }
        match decode(nm) {
            Some(dn) => {
                let rendered = render(&dn, include_hash);
                push_all(&mut out, &rendered);
                proof {
                    assert(rendered@ == demangled_token(nm@, include_hash));
                }
            },
            None => {
                push_all(&mut out, nm);
                proof {
                    assert(nm@ == demangled_token(nm@, include_hash));
                }
            },
        }
        out.push(10);
        proof {
            assert(view.skip(i as int).skip(1) =~= view.skip(i as int + 1));
            assert(names_spec(view.skip(i as int), include_hash) == demangled_token(
                view.skip(i as int)[0],
                include_hash,
            ) + seq![10u8] + names_spec(view.skip(i as int + 1), include_hash));
            assert(out@ + names_spec(view.skip(i as int + 1), include_hash) =~= names_spec(
                view,
                include_hash,
            ));
        }
        i = i + 1;
    }
    proof {
        assert(view.skip(n as int) =~= Seq::<Seq<u8>>::empty());
    }
    out
}

} // verus!
