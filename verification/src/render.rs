//! The name formatter: joins the decoded segments with `::`, and appends
//! the trailing hash segment only when it is both present and requested.

use vstd::prelude::*;
use crate::bytes::push_all;
use crate::decode::DecodedName;

verus! {

/// The segment separator `::`.
pub open spec fn sep() -> Seq<u8> {
    seq![58u8, 58u8]
}

/// The `::`-prefixed continuation of a joined name.
pub open spec fn join_tail(segs: Seq<Seq<u8>>) -> Seq<u8>
    decreases segs.len(),
{
    if segs.len() == 0 {
        Seq::empty()
    } else {
        sep() + segs[0] + join_tail(segs.skip(1))
    }
}

/// All segments joined by `::`.
pub open spec fn join_segs(segs: Seq<Seq<u8>>) -> Seq<u8> {
    if segs.len() == 0 {
        Seq::empty()
    } else {
        segs[0] + join_tail(segs.skip(1))
    }
}

/// What `render` produces: the ordinary segments joined by `::`, with the
/// hash segment appended as one more `::`-joined segment only when it is
/// both tagged and requested.
pub open spec fn render_spec(
    segs: Seq<Seq<u8>>,
    hash: Option<Seq<u8>>,
    include_hash: bool,
) -> Seq<u8> {
    match hash {
        Some(h) => if include_hash {
            join_segs(segs.push(h))
        } else {
            join_segs(segs)
        },
        None => join_segs(segs),
    }
}

proof fn lemma_join_tail_push(segs: Seq<Seq<u8>>, x: Seq<u8>)
    ensures
        join_tail(segs.push(x)) == join_tail(segs) + sep() + x,
    decreases segs.len(),
{
    if segs.len() == 0 {
        assert(segs.push(x)[0] == x);
        assert(segs.push(x).skip(1) =~= Seq::<Seq<u8>>::empty());
        assert(sep() + x + join_tail(Seq::<Seq<u8>>::empty()) =~= Seq::<u8>::empty() + sep() + x);
    } else {
        lemma_join_tail_push(segs.skip(1), x);
        assert(segs.push(x)[0] == segs[0]);
        assert(segs.push(x).skip(1) =~= segs.skip(1).push(x));
        assert(sep() + segs[0] + (join_tail(segs.skip(1)) + sep() + x) =~= (sep() + segs[0]
            + join_tail(segs.skip(1))) + sep() + x);
    }
}

/// Appending one more segment to a join appends `::` and that segment,
/// except that the first segment of a name carries no leading separator.
pub proof fn lemma_join_push(segs: Seq<Seq<u8>>, x: Seq<u8>)
    ensures
        segs.len() == 0 ==> join_segs(segs.push(x)) == x,
        segs.len() > 0 ==> join_segs(segs.push(x)) == join_segs(segs) + sep() + x,
{
    if segs.len() == 0 {
        assert(segs.push(x)[0] == x);
        assert(segs.push(x).skip(1) =~= Seq::<Seq<u8>>::empty());
        assert(x + join_tail(Seq::<Seq<u8>>::empty()) =~= x);
    } else {
        lemma_join_tail_push(segs.skip(1), x);
        assert(segs.push(x)[0] == segs[0]);
        assert(segs.push(x).skip(1) =~= segs.skip(1).push(x));
        assert(segs[0] + (join_tail(segs.skip(1)) + sep() + x) =~= (segs[0] + join_tail(
            segs.skip(1),
        )) + sep() + x);
    }
}

/// Renders a decoded name as `::`-joined text. When `include_hash` is
/// false a tagged hash segment is omitted together with its separator;
/// when no hash segment was tagged the flag has no effect.
pub fn render(name: &DecodedName, include_hash: bool) -> (out: Vec<u8>)
    ensures
        out@ == render_spec(name.segs(), name.hash_seq(), include_hash),
{
    let ghost segsv = name.segs();
    let mut out: Vec<u8> = Vec::new();
    let n = name.segments.len();
    let mut i: usize = 0;
    proof {
        assert(segsv.take(0) =~= Seq::<Seq<u8>>::empty());
    }
    while i < n
        invariant
            i <= n,
            out@ == join_segs(segsv.take(i as int)),
        decreases n - i,
    {
        let ghost before = out@;
        if i > 0 {
            out.push(58);
            out.push(58);
            proof {
                assert(out@ =~= before + sep());
            }
        }
        push_all(&mut out, &name.segments[i]);
        proof {
            assert(segsv[i as int] == name.segments@[i as int]@);
            assert(segsv.take(i as int + 1) =~= segsv.take(i as int).push(segsv[i as int]));
            lemma_join_push(segsv.take(i as int), segsv[i as int]);
            if i == 0 {
                assert(out@ =~= segsv[0]);
            } else {
                assert(out@ =~= join_segs(segsv.take(i as int)) + sep() + segsv[i as int]);
            }
        }
        i = i + 1;
    }
    proof {
        assert(segsv.take(n as int) =~= segsv);
    }
    if include_hash {
        match &name.hash {
            Some(h) => {
                let ghost before = out@;
                if n > 0 {
                    out.push(58);
                    out.push(58);
                    proof {
                        assert(out@ =~= before + sep());
                    }
                }
                push_all(&mut out, h);
                proof {
                    lemma_join_push(segsv, h@);
                    if n > 0 {
                        assert(out@ =~= join_segs(segsv) + sep() + h@);
                    } else {
                        assert(out@ =~= h@);
                    }
                }
            },
            None => {},
        }
    }
    out
}

} // verus!
