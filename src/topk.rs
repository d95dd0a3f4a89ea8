//! Bounded collection of the best-ranked hits.

use vstd::prelude::*;

verus! {

/// A matching document with its score.
#[derive(Debug, Clone, Copy, PartialEq, Eq, Structural)]
pub struct Hit {
    pub doc: usize,
    pub score: u64,
}

/// `a` ranks before `b`: a higher score, or an equal score and a lower document id.
pub open spec fn beats(a: Hit, b: Hit) -> bool {
    a.score > b.score || (a.score == b.score && a.doc < b.doc)
}

/// Strictly descending by rank.
pub open spec fn ranked(s: Seq<Hit>) -> bool {
    forall|i: int, j: int| 0 <= i < j < s.len() ==> beats(#[trigger] s[i], #[trigger] s[j])
}

/// `s` is full at `k` and every hit in it ranks before `x`.
pub open spec fn shuts_out(s: Seq<Hit>, k: usize, x: Hit) -> bool {
    s.len() == k && forall|i: int| 0 <= i < s.len() ==> beats(#[trigger] s[i], x)
}

pub fn beats_exec(a: Hit, b: Hit) -> (r: bool)
    ensures
        r == beats(a, b),
{
    a.score > b.score || (a.score == b.score && a.doc < b.doc)
}

/// Offers `h` to a ranked buffer of at most `k` hits; the buffer keeps the best `k`.
pub fn offer(buf: &mut Vec<Hit>, h: Hit, k: usize)
    requires
        ranked(old(buf)@),
        old(buf)@.len() <= k,
        forall|i: int| 0 <= i < old(buf)@.len() ==> (#[trigger] old(buf)@[i]).doc != h.doc,
    ensures
        ranked(final(buf)@),
        final(buf)@.len() <= k,
        forall|i: int|
            0 <= i < final(buf)@.len() ==> #[trigger] final(buf)@[i] == h || old(buf)@.contains(
                final(buf)@[i],
            ),
        forall|x: Hit|
            (old(buf)@.contains(x) || x == h) && !final(buf)@.contains(x) ==> #[trigger] shuts_out(
                final(buf)@,
                k,
                x,
            ),
        forall|x: Hit| #[trigger] shuts_out(old(buf)@, k, x) ==> shuts_out(final(buf)@, k, x),
{
    let ghost prev = buf@;
    let mut pos: usize = 0;
    while pos < buf.len() && beats_exec(buf[pos], h)
        invariant
            buf@ == prev,
            forall|i: int| 0 <= i < prev.len() ==> (#[trigger] prev[i]).doc != h.doc,
            pos <= buf@.len(),
            forall|i: int| 0 <= i < pos ==> beats(#[trigger] buf@[i], h),
        decreases buf@.len() - pos,
    {
        pos = pos + 1;
    }
    if pos < k {
        buf.insert(pos, h);
        let ghost ins = buf@;
        assert(ins == prev.subrange(0, pos as int).push(h) + prev.subrange(pos as int, prev.len() as int));
        assert(forall|i: int| pos <= i < prev.len() ==> beats(h, #[trigger] prev[i]));
        assert(ranked(ins));
        assert forall|i: int| 0 <= i < ins.len() implies #[trigger] ins[i] == h || prev.contains(ins[i]) by {
            if i < pos {
                assert(ins[i] == prev[i]);
            } else if i > pos {
                assert(ins[i] == prev[i - 1]);
            }
        }
        if buf.len() > k {
            let dropped = buf.pop().unwrap();
            assert(buf@ == ins.drop_last());
            assert forall|i: int| 0 <= i < buf@.len() implies #[trigger] buf@[i] == h || prev.contains(buf@[i]) by {
                assert(buf@[i] == ins[i]);
            }
            assert forall|x: Hit|
                (prev.contains(x) || x == h) && !buf@.contains(x) implies #[trigger] shuts_out(buf@, k, x) by {
                let j = if x == h { pos as int } else { choose|j: int| 0 <= j < prev.len() && prev[j] == x };
                if x != h {
                    if j < pos {
                        assert(buf@[j] == x);
                    } else if j < prev.len() - 1 {
                        assert(buf@[j + 1] == x);
                    }
                } else {
                    assert(buf@[pos as int] == h);
                }
                assert(x == dropped);
                assert forall|i: int| 0 <= i < buf@.len() implies beats(#[trigger] buf@[i], x) by {
                    assert(ins[i] == buf@[i]);
                    assert(ins[ins.len() - 1] == dropped);
                }
            }
            assert forall|x: Hit| #[trigger] shuts_out(prev, k, x) implies shuts_out(buf@, k, x) by {
                assert forall|i: int| 0 <= i < buf@.len() implies beats(#[trigger] buf@[i], x) by {
                    assert(buf@[i] == ins[i]);
                    if i < pos {
                        assert(ins[i] == prev[i]);
                    } else if i > pos {
                        assert(ins[i] == prev[i - 1]);
                    } else {
                        assert(beats(prev[pos as int], x));
                    }
                }
            }
        } else {
            assert forall|x: Hit|
                (prev.contains(x) || x == h) && !buf@.contains(x) implies #[trigger] shuts_out(buf@, k, x) by {
                if x == h {
                    assert(buf@[pos as int] == h);
                } else {
                    let j = choose|j: int| 0 <= j < prev.len() && prev[j] == x;
                    if j < pos {
                        assert(buf@[j] == x);
                    } else {
                        assert(buf@[j + 1] == x);
                    }
                }
            }
        }
    } else {
        assert forall|x: Hit|
            (prev.contains(x) || x == h) && !buf@.contains(x) implies #[trigger] shuts_out(buf@, k, x) by {
            assert forall|i: int| 0 <= i < buf@.len() implies beats(#[trigger] buf@[i], x) by {
                assert(beats(buf@[i], h));
            }
        }
    }
}

} // verus!
