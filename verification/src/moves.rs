//! Sequences of flips and what they do to the cells of a ball.
use vstd::prelude::*;
use crate::ball::{
    flip_cells, flip_source, lemma_flip_involution, lemma_flip_source, number_of, solved_cells, SBall,
};
use crate::cells::lemma_toggle;

verus! {

/// Every entry names one of the thirteen flips.
pub open spec fn valid_flips(f: Seq<usize>) -> bool {
    forall|i: int| 0 <= i < f.len() ==> #[trigger] f[i] < 13
}

/// No flip follows itself.
pub open spec fn no_repeat(f: Seq<usize>) -> bool {
    forall|i: int| 1 <= i < f.len() ==> #[trigger] f[i] != f[i - 1]
}

/// The cells after doing the flips `f` in order, starting from the cells `s`.
pub open spec fn play_cells(s: Seq<u64>, f: Seq<usize>) -> Seq<u64>
    decreases f.len(),
{
    if f.len() == 0 {
        s
    } else {
        flip_cells(play_cells(s, f.drop_last()), f.last() as int)
    }
}

/// `x` with its colour toggled when `t` holds.
pub open spec fn toggled(x: u64, t: bool) -> u64 {
    if t {
        x ^ 1
    } else {
        x
    }
}

/// The position of the starting cells that the flips `f` bring to position `p`.
pub open spec fn trace_source(f: Seq<usize>, p: int) -> int
    decreases f.len(),
{
    if f.len() == 0 {
        p
    } else {
        let k = f.last() as int;
        let q = if flip_source(k, p) >= 0 {
            flip_source(k, p)
        } else {
            p
        };
        trace_source(f.drop_last(), q)
    }
}

/// Whether the flips `f` toggle the colour of the cell they bring to position `p`.
pub open spec fn trace_toggle(f: Seq<usize>, p: int) -> bool
    decreases f.len(),
{
    if f.len() == 0 {
        false
    } else {
        let k = f.last() as int;
        let moved = flip_source(k, p) >= 0;
        let q = if moved {
            flip_source(k, p)
        } else {
            p
        };
        trace_toggle(f.drop_last(), q) != moved
    }
}

pub proof fn lemma_play_len(s: Seq<u64>, f: Seq<usize>)
    requires
        s.len() == 12,
    ensures
        play_cells(s, f).len() == 12,
    decreases f.len(),
{
    if f.len() > 0 {
        lemma_play_len(s, f.drop_last());
    }
}

/// Doing `f` and then `g` is doing `f + g`.
pub proof fn lemma_play_append(s: Seq<u64>, f: Seq<usize>, g: Seq<usize>)
    ensures
        play_cells(s, f + g) == play_cells(play_cells(s, f), g),
    decreases g.len(),
{
    if g.len() == 0 {
        assert(f + g =~= f);
    } else {
        assert((f + g).drop_last() =~= f + g.drop_last());
        assert((f + g).last() == g.last());
        lemma_play_append(s, f, g.drop_last());
    }
}

/// Doing the flips of a sequence in reverse order undoes it.
pub proof fn lemma_play_undo(s: Seq<u64>, f: Seq<usize>)
    requires
        s.len() == 12,
        valid_flips(f),
    ensures
        play_cells(play_cells(s, f), f.reverse()) == s,
    decreases f.len(),
{
    if f.len() > 0 {
        let g = f.drop_last();
        let k = f.last();
        assert(valid_flips(g)) by {
            assert forall|i: int| 0 <= i < g.len() implies #[trigger] g[i] < 13 by {
                assert(g[i] == f[i]);
            }
        }
        assert(f[f.len() - 1] < 13);
        assert(f.reverse() =~= seq![k] + g.reverse());
        lemma_play_append(play_cells(s, f), seq![k], g.reverse());
        assert(seq![k].drop_last() =~= Seq::<usize>::empty());
        assert(play_cells(play_cells(s, f), seq![k]) == flip_cells(
            play_cells(play_cells(s, f), Seq::<usize>::empty()),
            k as int,
        ));
        assert(play_cells(s, f) == flip_cells(play_cells(s, g), k as int));
        lemma_play_len(s, g);
        lemma_flip_involution(play_cells(s, g), k as int);
        assert(play_cells(play_cells(s, f), seq![k]) == play_cells(s, g));
        lemma_play_undo(s, g);
    }
}

/// What the flips `f` leave at position `p`: the starting cell from
/// `trace_source`, its colour toggled per `trace_toggle`.
pub proof fn lemma_play_trace(s: Seq<u64>, f: Seq<usize>, p: int)
    requires
        s.len() == 12,
        valid_flips(f),
        0 <= p < 12,
    ensures
        0 <= trace_source(f, p) < 12,
        play_cells(s, f)[p] == toggled(s[trace_source(f, p)], trace_toggle(f, p)),
    decreases f.len(),
{
    if f.len() > 0 {
        let g = f.drop_last();
        let k = f.last() as int;
        assert(f[f.len() - 1] < 13);
        assert(valid_flips(g)) by {
            assert forall|i: int| 0 <= i < g.len() implies #[trigger] g[i] < 13 by {
                assert(g[i] == f[i]);
            }
        }
        lemma_flip_source(k, p);
        let q = if flip_source(k, p) >= 0 {
            flip_source(k, p)
        } else {
            p
        };
        lemma_play_trace(s, g, q);
        lemma_toggle(s[trace_source(g, q)]);
    }
}

/// A toggled cell of the solved ball tells both its position and the toggle.
pub proof fn lemma_solved_cell_distinct(q1: int, t1: bool, q2: int, t2: bool)
    requires
        0 <= q1 < 12,
        0 <= q2 < 12,
        toggled(solved_cells()[q1], t1) == toggled(solved_cells()[q2], t2),
    ensures
        q1 == q2,
        t1 == t2,
{
    assert(forall|y: u64| y < 32 && y % 2 == 0 ==> #[trigger] (y ^ 1) == y + 1) by (bit_vector);
    let y1 = solved_cells()[q1];
    let y2 = solved_cells()[q2];
    assert(y1 == 2 * q1 + 2);
    assert(y2 == 2 * q2 + 2);
    assert(y1 ^ 1 == y1 + 1);
    assert(y2 ^ 1 == y2 + 1);
}

/// Two flip sequences that do the same to the solved ball do the same to
/// every ball.
pub proof fn lemma_effect_determined(f: Seq<usize>, g: Seq<usize>, s: Seq<u64>)
    requires
        valid_flips(f),
        valid_flips(g),
        play_cells(solved_cells(), f) == play_cells(solved_cells(), g),
        s.len() == 12,
    ensures
        play_cells(s, f) == play_cells(s, g),
{
    lemma_play_len(s, f);
    lemma_play_len(s, g);
    assert forall|p: int| 0 <= p < 12 implies #[trigger] play_cells(s, f)[p] == play_cells(s, g)[p] by {
        lemma_play_trace(solved_cells(), f, p);
        lemma_play_trace(solved_cells(), g, p);
        lemma_play_trace(s, f, p);
        lemma_play_trace(s, g, p);
        lemma_solved_cell_distinct(trace_source(f, p), trace_toggle(f, p), trace_source(g, p), trace_toggle(g, p));
    }
    assert(play_cells(s, f) =~= play_cells(s, g));
}

/// A piece of a valid sequence in which no flip follows itself is such a
/// sequence too.
pub proof fn lemma_subrange_flips(f: Seq<usize>, i: int, j: int)
    requires
        valid_flips(f),
        no_repeat(f),
        0 <= i <= j <= f.len(),
    ensures
        valid_flips(f.subrange(i, j)),
        no_repeat(f.subrange(i, j)),
{
    let g = f.subrange(i, j);
    assert forall|k: int| 0 <= k < g.len() implies #[trigger] g[k] < 13 by {
        assert(g[k] == f[i + k]);
    }
    assert forall|k: int| 1 <= k < g.len() implies #[trigger] g[k] != g[k - 1] by {
        assert(g[k] == f[i + k]);
        assert(g[k - 1] == f[i + k - 1]);
    }
}

/// The reverse of a valid sequence in which no flip follows itself is such a
/// sequence too.
pub proof fn lemma_reverse_flips(f: Seq<usize>)
    requires
        valid_flips(f),
        no_repeat(f),
    ensures
        valid_flips(f.reverse()),
        no_repeat(f.reverse()),
{
    let g = f.reverse();
    assert forall|k: int| 0 <= k < g.len() implies #[trigger] g[k] < 13 by {
        assert(g[k] == f[f.len() - 1 - k]);
    }
    assert forall|k: int| 1 <= k < g.len() implies #[trigger] g[k] != g[k - 1] by {
        assert(g[k] == f[f.len() - 1 - k]);
        assert(g[k - 1] == f[f.len() - k]);
        assert(f[f.len() - k] != f[f.len() - k - 1]);
    }
}

/// Where one flip takes the cell at position `p` from.
pub open spec fn step_source(k: int, p: int) -> int {
    if flip_source(k, p) >= 0 {
        flip_source(k, p)
    } else {
        p
    }
}

/// The trace of a sequence with one more flip at its end.
pub proof fn lemma_trace_push(f: Seq<usize>, k: usize, p: int)
    ensures
        trace_source(f.push(k), p) == trace_source(f, step_source(k as int, p)),
        trace_toggle(f.push(k), p) == (trace_toggle(f, step_source(k as int, p)) != (flip_source(
            k as int,
            p,
        ) >= 0)),
{
    assert(f.push(k).drop_last() =~= f);
}


/// A flip moves the numbers around the ball as a permutation: the number at
/// each position afterwards is the one at its source position before, and the
/// source of the source of a position is the position itself, so every
/// number lands on exactly one position.  The four bits above the cells stay.
pub proof fn lemma_flip_permutes_numbers(before: SBall, after: SBall, k: int)
    requires
        0 <= k < 13,
        after@ == flip_cells(before@, k),
        after.high() == before.high(),
    ensures
        forall|p: int| 0 <= p < 12 ==> 0 <= #[trigger] step_source(k, p) < 12,
        forall|p: int| 0 <= p < 12 ==> step_source(k, #[trigger] step_source(k, p)) == p,
        forall|p: int|
            0 <= p < 12 ==> number_of(#[trigger] after@[p]) == number_of(before@[step_source(k, p)]),
        after.high() == before.high(),
{
    assert forall|p: int| 0 <= p < 12 implies 0 <= #[trigger] step_source(k, p) < 12 && step_source(
        k,
        step_source(k, p),
    ) == p && number_of(after@[p]) == number_of(before@[step_source(k, p)]) by {
        lemma_flip_source(k, p);
        if flip_source(k, p) >= 0 {
            lemma_toggle(before@[flip_source(k, p)]);
        }
    }
}

impl SBall {
    /// Does the flips `flips` in order.
    pub fn play_flips(&mut self, flips: &[usize])
        requires
            valid_flips(flips@),
        ensures
            final(self)@ == play_cells(old(self)@, flips@),
            final(self).high() == old(self).high(),
    {
        let ghost start = *self;
        for i in 0..flips.len()
            invariant
                valid_flips(flips@),
                self@ == play_cells(start@, flips@.take(i as int)),
                self.high() == start.high(),
        {
            proof {
                assert(flips@.take(i as int + 1).drop_last() =~= flips@.take(i as int));
                assert(flips@[i as int] < 13);
            }
            self.flip(flips[i]);
        }
        proof {
            assert(flips@.take(flips@.len() as int) =~= flips@);
        }
    }
}

} // verus!
