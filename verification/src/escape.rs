//! The fixed escape table of the mangled-name grammar, and the
//! substitution pass over one segment body.
//!
//! Markers are literal strings beginning with `$`; they are tried in a
//! fixed order and the first match wins. An unknown `$`-led run makes the
//! remainder of the segment come out verbatim.

use vstd::prelude::*;
use crate::bytes::push_all;
use crate::bytes::subvec;

verus! {

/// The marker, if any, that matches at the head of `s`, as the pair of its
/// literal length and its replacement byte. The table, in match order:
/// `$SP$`->`@`, `$BP$`->`*`, `$RF$`->`&`, `$LT$`->`<`, `$GT$`->`>`,
/// `$LP$`->`(`, `$RP$`->`)`, `$C$`->`,`, `$u7e$`->`~`, `$u20$`->space,
/// `$u27$`->`'`, `$u5b$`->`[`, `$u5d$`->`]`.
pub open spec fn escape_match(s: Seq<u8>) -> Option<(int, u8)> {
    if s.len() >= 4 && s[0] == 36 && s[1] == 83 && s[2] == 80 && s[3] == 36 {
        Some((4int, 64u8))
    } else if s.len() >= 4 && s[0] == 36 && s[1] == 66 && s[2] == 80 && s[3] == 36 {
        Some((4int, 42u8))
    } else if s.len() >= 4 && s[0] == 36 && s[1] == 82 && s[2] == 70 && s[3] == 36 {
        Some((4int, 38u8))
    } else if s.len() >= 4 && s[0] == 36 && s[1] == 76 && s[2] == 84 && s[3] == 36 {
        Some((4int, 60u8))
    } else if s.len() >= 4 && s[0] == 36 && s[1] == 71 && s[2] == 84 && s[3] == 36 {
        Some((4int, 62u8))
    } else if s.len() >= 4 && s[0] == 36 && s[1] == 76 && s[2] == 80 && s[3] == 36 {
        Some((4int, 40u8))
    } else if s.len() >= 4 && s[0] == 36 && s[1] == 82 && s[2] == 80 && s[3] == 36 {
        Some((4int, 41u8))
    } else if s.len() >= 3 && s[0] == 36 && s[1] == 67 && s[2] == 36 {
        Some((3int, 44u8))
    } else if s.len() >= 5 && s[0] == 36 && s[1] == 117 && s[2] == 55 && s[3] == 101 && s[4]
        == 36 {
        Some((5int, 126u8))
    } else if s.len() >= 5 && s[0] == 36 && s[1] == 117 && s[2] == 50 && s[3] == 48 && s[4]
        == 36 {
        Some((5int, 32u8))
    } else if s.len() >= 5 && s[0] == 36 && s[1] == 117 && s[2] == 50 && s[3] == 55 && s[4]
        == 36 {
        Some((5int, 39u8))
    } else if s.len() >= 5 && s[0] == 36 && s[1] == 117 && s[2] == 53 && s[3] == 98 && s[4]
        == 36 {
        Some((5int, 91u8))
    } else if s.len() >= 5 && s[0] == 36 && s[1] == 117 && s[2] == 53 && s[3] == 100 && s[4]
        == 36 {
        Some((5int, 93u8))
    } else {
        None
    }
}

/// The escape substitution applied to one whole segment body: bytes other
/// than `$` are copied, a matched marker becomes its replacement, and an
/// unmatched `$` makes the rest of the segment come out verbatim.
pub open spec fn escape_seg(s: Seq<u8>) -> Seq<u8>
    decreases s.len(),
{
    if s.len() == 0 {
        Seq::empty()
    } else if s[0] != 36 {
        seq![s[0]] + escape_seg(s.skip(1))
    } else {
        match escape_match(s) {
            Some(m) => seq![m.1] + escape_seg(s.skip(m.0)),
            None => s,
        }
    }
}

/// Tries the escape table at index `pos` of `seg`, in table order.
fn escape_step(seg: &Vec<u8>, pos: usize) -> (r: Option<(usize, u8)>)
    requires
        pos <= seg@.len(),
    ensures
        match r {
            Some(m) => escape_match(seg@.skip(pos as int)) == Some((m.0 as int, m.1)) && 1 <= m.0
                && pos + m.0 <= seg@.len(),
            None => escape_match(seg@.skip(pos as int)) is None,
        },
{
    let n = seg.len();
    proof {
        let s = seg@.skip(pos as int);
        assert(s.len() == n - pos);
        assert(forall|k: int| 0 <= k < s.len() ==> s[k] == seg@[pos + k]);
    }
    if n - pos >= 4 && seg[pos] == 36 && seg[pos + 1] == 83 && seg[pos + 2] == 80 && seg[pos + 3]
        == 36 {
        Some((4, 64))
    } else if n - pos >= 4 && seg[pos] == 36 && seg[pos + 1] == 66 && seg[pos + 2] == 80 && seg[pos
        + 3] == 36 {
        Some((4, 42))
    } else if n - pos >= 4 && seg[pos] == 36 && seg[pos + 1] == 82 && seg[pos + 2] == 70 && seg[pos
        + 3] == 36 {
        Some((4, 38))
    } else if n - pos >= 4 && seg[pos] == 36 && seg[pos + 1] == 76 && seg[pos + 2] == 84 && seg[pos
        + 3] == 36 {
        Some((4, 60))
    } else if n - pos >= 4 && seg[pos] == 36 && seg[pos + 1] == 71 && seg[pos + 2] == 84 && seg[pos
        + 3] == 36 {
        Some((4, 62))
    } else if n - pos >= 4 && seg[pos] == 36 && seg[pos + 1] == 76 && seg[pos + 2] == 80 && seg[pos
        + 3] == 36 {
        Some((4, 40))
    } else if n - pos >= 4 && seg[pos] == 36 && seg[pos + 1] == 82 && seg[pos + 2] == 80 && seg[pos
        + 3] == 36 {
        Some((4, 41))
    } else if n - pos >= 3 && seg[pos] == 36 && seg[pos + 1] == 67 && seg[pos + 2] == 36 {
        Some((3, 44))
    } else if n - pos >= 5 && seg[pos] == 36 && seg[pos + 1] == 117 && seg[pos + 2] == 55 && seg[pos
        + 3] == 101 && seg[pos + 4] == 36 {
        Some((5, 126))
    } else if n - pos >= 5 && seg[pos] == 36 && seg[pos + 1] == 117 && seg[pos + 2] == 50 && seg[pos
        + 3] == 48 && seg[pos + 4] == 36 {
        Some((5, 32))
    } else if n - pos >= 5 && seg[pos] == 36 && seg[pos + 1] == 117 && seg[pos + 2] == 50 && seg[pos
        + 3] == 55 && seg[pos + 4] == 36 {
        Some((5, 39))
    } else if n - pos >= 5 && seg[pos] == 36 && seg[pos + 1] == 117 && seg[pos + 2] == 53 && seg[pos
        + 3] == 98 && seg[pos + 4] == 36 {
        Some((5, 91))
    } else if n - pos >= 5 && seg[pos] == 36 && seg[pos + 1] == 117 && seg[pos + 2] == 53 && seg[pos
        + 3] == 100 && seg[pos + 4] == 36 {
        Some((5, 93))
    } else {
        None
    }
}

/// Applies the escape substitution to one segment body.
pub fn escape_segment(seg: &Vec<u8>) -> (out: Vec<u8>)
    ensures
        out@ == escape_seg(seg@),
{
    let mut out: Vec<u8> = Vec::new();
    let mut pos: usize = 0;
    proof {
        assert(seg@.skip(0) =~= seg@);
        assert(Seq::<u8>::empty() + escape_seg(seg@) =~= escape_seg(seg@));
    }
    while pos < seg.len()
        invariant
            pos <= seg@.len(),
            escape_seg(seg@) == out@ + escape_seg(seg@.skip(pos as int)),
        decreases seg@.len() - pos,
    {
        let b = seg[pos];
        let ghost s = seg@.skip(pos as int);
        proof {
            assert(s[0] == seg@[pos as int]);
        }
        if b != 36 {
            out.push(b);
            proof {
                assert(s.skip(1) =~= seg@.skip(pos as int + 1));
                assert(escape_seg(s) == seq![b] + escape_seg(seg@.skip(pos as int + 1)));
                assert(out@ + escape_seg(seg@.skip(pos as int + 1)) =~= escape_seg(seg@));
            }
            pos = pos + 1;
        } else {
            match escape_step(seg, pos) {
                Some(m) => {
                    out.push(m.1);
                    proof {
                        assert(s.skip(m.0 as int) =~= seg@.skip(pos as int + m.0 as int));
                        assert(escape_seg(s) == seq![m.1] + escape_seg(
                            seg@.skip(pos as int + m.0 as int),
                        ));
                        assert(out@ + escape_seg(seg@.skip(pos as int + m.0 as int)) =~= escape_seg(
                            seg@,
                        ));
                    }
                    pos = pos + m.0;
                },
                None => {
                    let rest = subvec(seg, pos, seg.len());
                    push_all(&mut out, &rest);
                    proof {
                        assert(escape_seg(s) == s);
                        assert(rest@ =~= s);
                        assert(out@ =~= escape_seg(seg@));
                        assert(seg@.skip(seg@.len() as int) =~= Seq::<u8>::empty());
                    }
                    pos = seg.len();
                },
            }
        }
    }
    proof {
        assert(seg@.skip(seg@.len() as int) =~= Seq::<u8>::empty());
    }
    out
}

} // verus!
