//! What a person holding the ball does: turn the ring, flip, turn back.
//!
//! A flip acts on the positions at the top of the ball.  To do flip `k` by
//! hand, the ring is first turned by `flip_offset(k)` positions, then flipped,
//! then turned back; consecutive turns are merged into one.
use vstd::prelude::*;
use crate::ball::{
    cells_from_entries, encode_entry, first_marker, is_first_marker, is_marker,
    lemma_without_markers_none, ring_after, valid_entries, without_markers, SBall,
};
use crate::cells::{cell, extract_cell};
use crate::moves::{play_cells, valid_flips};

verus! {

/// One step for a person holding the ball.
#[derive(PartialEq, Eq, Structural, Clone, Copy, Debug)]
pub enum VHumanStep {
    Flip(usize),
    Rotate(isize),
}

/// How far the ring is turned before flip `k` (zero or negative).
pub open spec fn flip_offset_spec(k: int) -> int {
    -(if k < 6 {
        if k <= 2 {
            k
        } else {
            k + 3
        }
    } else {
        if k <= 8 {
            k - 3
        } else {
            k
        }
    })
}

/// How far the ring is turned before flip `flip`.
pub fn flip_offset(flip: usize) -> (r: isize)
    requires
        flip < 13,
    ensures
        r == flip_offset_spec(flip as int),
{
    if flip < 6 {
        if flip <= 2 {
            -(flip as isize)
        } else {
            -(flip as isize + 3)
        }
    } else {
        if flip <= 8 {
            -(flip as isize - 3)
        } else {
            -(flip as isize)
        }
    }
}

/// The turn of the ring after the flips `f`, before turning back: that of the
/// last flip, or 0 where there is none.
pub open spec fn last_offset(f: Seq<usize>) -> int {
    if f.len() == 0 {
        0
    } else {
        flip_offset_spec(f.last() as int)
    }
}

/// `steps` with a turn by `d` appended, unless `d` is zero.
pub open spec fn push_rotation(steps: Seq<VHumanStep>, d: int) -> Seq<VHumanStep> {
    if d != 0 {
        steps.push(VHumanStep::Rotate(d as isize))
    } else {
        steps
    }
}

/// The steps for the flips `f` without the final turn back: before each flip
/// the turn from the previous flip's position to this one's, then the flip.
pub open spec fn steps_body(f: Seq<usize>) -> Seq<VHumanStep>
    decreases f.len(),
{
    if f.len() == 0 {
        Seq::empty()
    } else {
        let g = f.drop_last();
        push_rotation(
            steps_body(g),
            flip_offset_spec(f.last() as int) - last_offset(g),
        ).push(VHumanStep::Flip(f.last()))
    }
}

/// The steps for the flips `f`: the body, then the turn back to the start.
pub open spec fn human_steps_spec(f: Seq<usize>) -> Seq<VHumanStep> {
    push_rotation(steps_body(f), -last_offset(f))
}

/// The steps a person does for the flips `slcflip`.
pub fn human_steps(slcflip: &[usize]) -> (r: Vec<VHumanStep>)
    requires
        valid_flips(slcflip@),
    ensures
        r@ == human_steps_spec(slcflip@),
{
    let mut vechumanstep: Vec<VHumanStep> = Vec::new();
    proof {
        assert(slcflip@.take(0) =~= Seq::<usize>::empty());
    }
    for j in 0..slcflip.len()
        invariant
            valid_flips(slcflip@),
            vechumanstep@ == human_steps_spec(slcflip@.take(j as int)),
    {
        let flip = slcflip[j];
        let ghost g = slcflip@.take(j as int);
        let ghost body = steps_body(g);
        proof {
            assert(slcflip@[j as int] < 13);
            assert(slcflip@.take(j + 1).drop_last() =~= g);
            assert(slcflip@.take(j + 1).last() == flip);
            if j > 0 {
                assert(body.len() > 0 && body.last() == VHumanStep::Flip(g.last()));
            }
        }
        let n_flipping_offset = flip_offset(flip);
        let len = vechumanstep.len();
        if len == 0 {
            if 0 != n_flipping_offset {
                vechumanstep.push(VHumanStep::Rotate(n_flipping_offset));
            }
        } else {
            match vechumanstep[len - 1] {
                VHumanStep::Rotate(n_prev_offset) => {
                    vechumanstep.pop();
                    proof {
                        assert(vechumanstep@ =~= body);
                    }
                    if 0 != n_prev_offset + n_flipping_offset {
                        vechumanstep.push(VHumanStep::Rotate(n_prev_offset + n_flipping_offset));
                    }
                },
                VHumanStep::Flip(_) => {
                    if 0 != n_flipping_offset {
                        vechumanstep.push(VHumanStep::Rotate(n_flipping_offset));
                    }
                },
            }
        }
        proof {
            assert(vechumanstep@ == push_rotation(body, flip_offset_spec(flip as int) - last_offset(g)));
        }
        vechumanstep.push(VHumanStep::Flip(flip));
        if 0 != n_flipping_offset {
            vechumanstep.push(VHumanStep::Rotate(-n_flipping_offset));
        }
    }
    proof {
        assert(slcflip@.take(slcflip@.len() as int) =~= slcflip@);
    }
    vechumanstep
}

/// How far a step turns the ring.
pub open spec fn rotation_of(step: VHumanStep) -> int {
    match step {
        VHumanStep::Rotate(n) => n as int,
        VHumanStep::Flip(_) => 0,
    }
}

/// How far the steps `s` turn the ring in all.
pub open spec fn offset_sum(s: Seq<VHumanStep>) -> int
    decreases s.len(),
{
    if s.len() == 0 {
        0
    } else {
        offset_sum(s.drop_last()) + rotation_of(s.last())
    }
}

/// The flips among the steps `s`, in order.
pub open spec fn step_flips(s: Seq<VHumanStep>) -> Seq<usize>
    decreases s.len(),
{
    if s.len() == 0 {
        Seq::empty()
    } else {
        match s.last() {
            VHumanStep::Flip(k) => step_flips(s.drop_last()).push(k),
            VHumanStep::Rotate(_) => step_flips(s.drop_last()),
        }
    }
}

/// Whether the ring stays within twelve positions of where it started,
/// turned back, after every prefix of the steps `s`.
pub open spec fn turns_bounded(s: Seq<VHumanStep>) -> bool {
    forall|k: int| 0 <= k <= s.len() ==> -12 <= #[trigger] offset_sum(s.take(k)) <= 0
}

proof fn lemma_push_bounded(s: Seq<VHumanStep>, x: VHumanStep)
    requires
        turns_bounded(s),
        -12 <= offset_sum(s) + rotation_of(x) <= 0,
    ensures
        turns_bounded(s.push(x)),
        offset_sum(s.push(x)) == offset_sum(s) + rotation_of(x),
        step_flips(s.push(x)) == match x {
            VHumanStep::Flip(k) => step_flips(s).push(k),
            VHumanStep::Rotate(_) => step_flips(s),
        },
{
    assert(s.push(x).drop_last() =~= s);
    assert forall|k: int| 0 <= k <= s.push(x).len() implies -12 <= #[trigger] offset_sum(
        s.push(x).take(k),
    ) <= 0 by {
        if k <= s.len() {
            assert(s.push(x).take(k) =~= s.take(k));
        } else {
            assert(s.push(x).take(k) =~= s.push(x));
        }
    }
}

proof fn lemma_flip_offset_range(k: int)
    requires
        0 <= k < 13,
    ensures
        -12 <= flip_offset_spec(k) <= 0,
{
}

/// The body of the steps for `f` keeps the ring within bounds, ends turned by
/// the last flip's offset, and does exactly the flips `f`.
proof fn lemma_steps_body(f: Seq<usize>)
    requires
        valid_flips(f),
    ensures
        turns_bounded(steps_body(f)),
        offset_sum(steps_body(f)) == last_offset(f),
        step_flips(steps_body(f)) == f,
    decreases f.len(),
{
    if f.len() == 0 {
        assert forall|k: int| 0 <= k <= 0 implies -12 <= #[trigger] offset_sum(
            Seq::<VHumanStep>::empty().take(k),
        ) <= 0 by {
            assert(Seq::<VHumanStep>::empty().take(k) =~= Seq::<VHumanStep>::empty());
        }
    } else {
        let g = f.drop_last();
        assert(valid_flips(g)) by {
            assert forall|i: int| 0 <= i < g.len() implies #[trigger] g[i] < 13 by {
                assert(g[i] == f[i]);
            }
        }
        assert(f[f.len() - 1] < 13);
        lemma_steps_body(g);
        lemma_flip_offset_range(f.last() as int);
        if g.len() > 0 {
            assert(g[g.len() - 1] < 13);
            lemma_flip_offset_range(g.last() as int);
        }
        let b = steps_body(g);
        let d = flip_offset_spec(f.last() as int) - last_offset(g);
        if d != 0 {
            lemma_push_bounded(b, VHumanStep::Rotate(d as isize));
        }
        let b2 = push_rotation(b, d);
        lemma_push_bounded(b2, VHumanStep::Flip(f.last()));
        assert(g.push(f.last()) =~= f);
    }
}

/// The steps for valid flips `f` keep the ring within twelve positions of the
/// start, turn it back to where it started, and do exactly the flips `f`.
pub proof fn lemma_human_steps(f: Seq<usize>)
    requires
        valid_flips(f),
    ensures
        turns_bounded(human_steps_spec(f)),
        offset_sum(human_steps_spec(f)) == 0,
        step_flips(human_steps_spec(f)) == f,
{
    lemma_steps_body(f);
    if f.len() > 0 {
        assert(f[f.len() - 1] < 13);
        lemma_flip_offset_range(f.last() as int);
    }
    if last_offset(f) != 0 {
        lemma_push_bounded(steps_body(f), VHumanStep::Rotate((-last_offset(f)) as isize));
    }
}

/// Where position `i` of the ball is shown when the ring is turned by
/// `n_offset`: positions `0..12` are the movable ones, 12 the fixed 13.
pub open spec fn shown_position(i: int, n_offset: int) -> int {
    (i + n_offset + 26) % 13
}

/// The thirteen cells in the order they are shown, with the ring turned by
/// `n_offset`: the fixed number 13 (cell 26) and the twelve movable ones.
pub fn ball_layout(ball: &SBall, n_offset: isize) -> (r: Vec<u64>)
    requires
        -26 <= n_offset <= isize::MAX - 38,
    ensures
        r@.len() == 13,
        forall|i: int| 0 <= i < 12 ==> r@[#[trigger] shown_position(i, n_offset as int)] == ball@[i],
        r@[shown_position(12, n_offset as int)] == 26,
{
    let mut acell: Vec<u64> = vec![0, 0, 0, 0, 0, 0, 0, 0, 0, 0, 0, 0, 0];
    for i in 0..12
        invariant
            -26 <= n_offset <= isize::MAX - 38,
            acell@.len() == 13,
            forall|j: int|
                0 <= j < i ==> acell@[#[trigger] shown_position(j, n_offset as int)] == ball@[j],
    {
        let pos = ((i as isize + n_offset + 26) % 13) as usize;
        let c = extract_cell(ball.n_cells, i);
        let ghost before = acell@;
        acell.set(pos, c);
        proof {
            assert forall|j: int| 0 <= j < i + 1 implies acell@[#[trigger] shown_position(
                j,
                n_offset as int,
            )] == ball@[j] by {
                if j < i {
                    assert(shown_position(j, n_offset as int) != pos);
                    assert(acell@[shown_position(j, n_offset as int)] == before[shown_position(
                        j,
                        n_offset as int,
                    )]);
                }
            }
        }
    }
    let pos = ((12 + n_offset + 26) % 13) as usize;
    let ghost before = acell@;
    acell.set(pos, 0b11010);
    proof {
        assert forall|j: int| 0 <= j < 12 implies acell@[#[trigger] shown_position(j, n_offset as int)]
            == ball@[j] by {
            assert(shown_position(j, n_offset as int) != pos);
            assert(acell@[shown_position(j, n_offset as int)] == before[shown_position(
                j,
                n_offset as int,
            )]);
        }
    }
    acell
}

/// The parts of a cell as shown: whether its colour is 1, and its number.
pub fn cell_parts(n_cell: u64) -> (r: (bool, u64))
    ensures
        r.0 == (n_cell & 1 == 1),
        r.1 == (n_cell & 0b11110) >> 1,
{
    let n_num = (n_cell & (0b1111 << 1)) >> 1;
    assert((n_cell & (15u64 << 1u64)) >> 1u64 == (n_cell & 30u64) >> 1u64) by (bit_vector);
    (0b1 == (n_cell & 0b1), n_num)
}

/// What a frame of the playback announces.
#[derive(PartialEq, Eq, Structural, Clone, Copy, Debug)]
pub enum Announcement {
    /// The ball as given, before any step.
    Start,
    /// Turn the ring by this many positions.
    Rotate(isize),
    /// Flip.
    Flip,
}

/// One frame of the playback of a solution: what is announced, and the ball
/// with the turn of the ring it is shown with afterwards.
#[derive(Clone, Copy, Debug)]
pub struct Frame {
    pub announcement: Announcement,
    pub ball: SBall,
    pub n_offset: isize,
}

/// Whether no step before step `k` turns the ring.
pub open spec fn no_rotation_before(steps: Seq<VHumanStep>, k: int) -> bool {
    forall|j: int| 0 <= j < k ==> #[trigger] steps[j] is Flip
}

/// What the frame after step `k` announces: the flip, or the turn, the first
/// turn counted from where the ring was shown at the start.
pub open spec fn announcement_of(steps: Seq<VHumanStep>, k: int, n_offset_initial: int) -> Announcement {
    match steps[k] {
        VHumanStep::Flip(_) => Announcement::Flip,
        VHumanStep::Rotate(n) => Announcement::Rotate(
            (if no_rotation_before(steps, k) {
                n - n_offset_initial
            } else {
                n as int
            }) as isize,
        ),
    }
}

/// The turn a frame announces; 0 for a flip or the start.
pub open spec fn announced_turn(a: Announcement) -> int {
    match a {
        Announcement::Rotate(n) => n as int,
        _ => 0,
    }
}

/// The turns announced by the frames after the start, up to frame `n`, added.
pub open spec fn announced_turns(frames: Seq<Frame>, n: int) -> int
    decreases n,
{
    if n <= 0 {
        0
    } else {
        announced_turns(frames, n - 1) + announced_turn(frames[n].announcement)
    }
}

/// The turns announced for the first `n` steps add up to the turn they make,
/// less the initial turn of the ring once a turn has been announced.
pub proof fn lemma_announced_turns(
    steps: Seq<VHumanStep>,
    n_offset_initial: int,
    frames: Seq<Frame>,
    n: int,
)
    requires
        0 <= n <= steps.len(),
        frames.len() == steps.len() + 1,
        turns_bounded(steps),
        -26 <= n_offset_initial <= isize::MAX - 38,
        forall|k: int|
            0 <= k < steps.len() ==> (#[trigger] frames[k + 1]).announcement == announcement_of(
                steps,
                k,
                n_offset_initial,
            ),
    ensures
        announced_turns(frames, n) == offset_sum(steps.take(n)) - (if no_rotation_before(steps, n) {
            0
        } else {
            n_offset_initial
        }),
    decreases n,
{
    if n == 0 {
        assert(steps.take(0) =~= Seq::<VHumanStep>::empty());
    } else {
        lemma_announced_turns(steps, n_offset_initial, frames, n - 1);
        let k = n - 1;
        assert(steps.take(n).drop_last() =~= steps.take(k));
        assert(steps.take(n).last() == steps[k]);
        assert(-12 <= offset_sum(steps.take(n)) <= 0);
        assert(-12 <= offset_sum(steps.take(k)) <= 0);
        assert(frames[k + 1].announcement == announcement_of(steps, k, n_offset_initial));
        if steps[k] is Flip {
            if !no_rotation_before(steps, k) {
                let j = choose|j: int| 0 <= j < k && !(#[trigger] steps[j] is Flip);
                assert(!(steps[j] is Flip));
            }
        } else {
            assert(!no_rotation_before(steps, n)) by {
                assert(!(steps[k] is Flip));
            }
        }
    }
}

/// The playback of the solution `slcflip` for `ball`, shown at first with the
/// ring turned by `n_offset_initial`: a frame for the start, then one after
/// each of the steps that a person does.
///
/// A frame announces a turn exactly where its step is one.  The first turn
/// announced is counted from the initial view, even after flips, so the
/// turns announced add up to the turn from the first frame's view to the
/// last one's; every later turn is announced as the step makes it.
pub fn solution_frames(ball: &SBall, n_offset_initial: isize, slcflip: &[usize]) -> (r: Vec<Frame>)
    requires
        valid_flips(slcflip@),
        -26 <= n_offset_initial <= isize::MAX - 38,
    ensures
        ({
            let steps = human_steps_spec(slcflip@);
            &&& r@.len() == steps.len() + 1
            &&& r@[0].announcement == Announcement::Start
            &&& r@[0].ball == *ball
            &&& r@[0].n_offset == n_offset_initial
            &&& forall|k: int|
                0 <= k < steps.len() ==> {
                    &&& (#[trigger] r@[k + 1]).announcement == announcement_of(
                        steps,
                        k,
                        n_offset_initial as int,
                    )
                    &&& r@[k + 1].ball@ == play_cells(ball@, step_flips(steps.take(k + 1)))
                    &&& r@[k + 1].ball.high() == ball.high()
                    &&& r@[k + 1].n_offset == offset_sum(steps.take(k + 1))
                    &&& -12 <= r@[k + 1].n_offset <= 0
                }
            &&& forall|k: int|
                0 <= k < steps.len() ==> ((#[trigger] r@[k + 1]).announcement is Rotate
                    <==> steps[k] is Rotate)
            &&& forall|j: int, k: int|
                0 <= j < k < steps.len() && (#[trigger] r@[j + 1]).announcement is Rotate && (
                #[trigger] r@[k + 1]).announcement is Rotate ==> r@[k + 1].announcement
                    == Announcement::Rotate(rotation_of(steps[k]) as isize)
            &&& (exists|k: int| 0 <= k < steps.len() && #[trigger] steps[k] is Rotate)
                ==> announced_turns(r@, steps.len() as int) == r@[steps.len() as int].n_offset
                - r@[0].n_offset
        }),
{
    let vechumanstep = human_steps(slcflip);
    let ghost steps = vechumanstep@;
    proof {
        lemma_human_steps(slcflip@);
    }
    let mut frames: Vec<Frame> = Vec::new();
    frames.push(Frame { announcement: Announcement::Start, ball: *ball, n_offset: n_offset_initial });
    let mut ball_playback = *ball;
    let mut n_offset: isize = 0;
    let mut b_rotated = false;
    proof {
        assert(steps.take(0) =~= Seq::<VHumanStep>::empty());
        assert(play_cells(ball@, Seq::<usize>::empty()) == ball@);
    }
    for k in 0..vechumanstep.len()
        invariant
            steps == vechumanstep@,
            steps == human_steps_spec(slcflip@),
            turns_bounded(steps),
            step_flips(steps) == slcflip@,
            valid_flips(slcflip@),
            -26 <= n_offset_initial <= isize::MAX - 38,
            frames@.len() == k + 1,
            frames@[0].announcement == Announcement::Start,
            frames@[0].ball == *ball,
            frames@[0].n_offset == n_offset_initial,
            forall|j: int|
                0 <= j < k ==> {
                    &&& (#[trigger] frames@[j + 1]).announcement == announcement_of(
                        steps,
                        j,
                        n_offset_initial as int,
                    )
                    &&& frames@[j + 1].ball@ == play_cells(ball@, step_flips(steps.take(j + 1)))
                    &&& frames@[j + 1].ball.high() == ball.high()
                    &&& frames@[j + 1].n_offset == offset_sum(steps.take(j + 1))
                    &&& -12 <= frames@[j + 1].n_offset <= 0
                },
            ball_playback@ == play_cells(ball@, step_flips(steps.take(k as int))),
            ball_playback.high() == ball.high(),
            n_offset == offset_sum(steps.take(k as int)),
            b_rotated == !no_rotation_before(steps, k as int),
    {
        let ghost pre = steps.take(k as int);
        proof {
            assert(steps.take(k + 1).drop_last() =~= pre);
            assert(steps.take(k + 1).last() == steps[k as int]);
            assert(-12 <= offset_sum(steps.take(k as int)) <= 0);
            assert(-12 <= offset_sum(steps.take(k + 1)) <= 0);
            lemma_step_flips_prefix(steps, k as int);
        }
        let announcement = match vechumanstep[k] {
            VHumanStep::Rotate(n_rotation) => {
                let a = if !b_rotated {
                    Announcement::Rotate(n_rotation - n_offset_initial)
                } else {
                    Announcement::Rotate(n_rotation)
                };
                b_rotated = true;
                n_offset = n_offset + n_rotation;
                a
            },
            VHumanStep::Flip(flip) => {
                proof {
                    let sf = step_flips(steps.take(k + 1));
                    assert(sf == step_flips(pre).push(flip));
                    assert(sf[sf.len() - 1] == flip);
                    assert(sf.drop_last() =~= step_flips(pre));
                }
                ball_playback.flip(flip);
                Announcement::Flip
            },
        };
        proof {
            if !(steps[k as int] is Flip) {
                assert(!no_rotation_before(steps, k + 1));
            } else if no_rotation_before(steps, k as int) {
                assert(no_rotation_before(steps, k + 1));
            } else {
                let j = choose|j: int| 0 <= j < k && !(#[trigger] steps[j] is Flip);
                assert(!no_rotation_before(steps, k + 1));
            }
        }
        let ghost frames_before = frames@;
        frames.push(Frame { announcement, ball: ball_playback, n_offset });
        proof {
            assert forall|j: int| 0 <= j < k + 1 implies {
                &&& (#[trigger] frames@[j + 1]).announcement == announcement_of(
                    steps,
                    j,
                    n_offset_initial as int,
                )
                &&& frames@[j + 1].ball@ == play_cells(ball@, step_flips(steps.take(j + 1)))
                &&& frames@[j + 1].ball.high() == ball.high()
                &&& frames@[j + 1].n_offset == offset_sum(steps.take(j + 1))
                &&& -12 <= frames@[j + 1].n_offset <= 0
            } by {
                if j < k {
                    assert(frames@[j + 1] == frames_before[j + 1]);
                }
            }
        }
    }
    proof {
        lemma_announced_turns(steps, n_offset_initial as int, frames@, steps.len() as int);
        assert(steps.take(steps.len() as int) =~= steps);
        assert forall|j: int, k: int|
            0 <= j < k < steps.len() && (#[trigger] frames@[j + 1]).announcement is Rotate && (
            #[trigger] frames@[k + 1]).announcement is Rotate implies frames@[k + 1].announcement
            == Announcement::Rotate(rotation_of(steps[k]) as isize) by {
            assert(!(steps[j] is Flip));
        }
        if exists|k: int| 0 <= k < steps.len() && #[trigger] steps[k] is Rotate {
            let k = choose|k: int| 0 <= k < steps.len() && #[trigger] steps[k] is Rotate;
            assert(!(steps[k] is Flip));
        }
    }
    frames
}

/// The flips among the first `k + 1` steps: those among the first `k`, and
/// step `k` if it is a flip; all of them are among the flips of all steps,
/// so they are valid where those are.
proof fn lemma_step_flips_prefix(steps: Seq<VHumanStep>, k: int)
    requires
        0 <= k < steps.len(),
        valid_flips(step_flips(steps)),
    ensures
        step_flips(steps.take(k + 1)) == match steps[k] {
            VHumanStep::Flip(f) => step_flips(steps.take(k)).push(f),
            VHumanStep::Rotate(_) => step_flips(steps.take(k)),
        },
        valid_flips(step_flips(steps.take(k + 1))),
{
    assert(steps.take(k + 1).drop_last() =~= steps.take(k));
    lemma_step_flips_prefix_valid(steps, k + 1);
}

/// The flips among a prefix of the steps are a prefix of the flips among all.
proof fn lemma_step_flips_prefix_valid(steps: Seq<VHumanStep>, k: int)
    requires
        0 <= k <= steps.len(),
        valid_flips(step_flips(steps)),
    ensures
        valid_flips(step_flips(steps.take(k))),
        step_flips(steps.take(k)).len() <= step_flips(steps).len(),
        forall|i: int|
            0 <= i < step_flips(steps.take(k)).len() ==> #[trigger] step_flips(steps.take(k))[i]
                == step_flips(steps)[i],
    decreases steps.len() - k,
{
    if k == steps.len() {
        assert(steps.take(k) =~= steps);
    } else {
        lemma_step_flips_prefix_valid(steps, k + 1);
        assert(steps.take(k + 1).drop_last() =~= steps.take(k));
        let a = step_flips(steps.take(k));
        let b = step_flips(steps.take(k + 1));
        assert forall|i: int| 0 <= i < a.len() implies #[trigger] a[i] == step_flips(steps)[i] by {
            assert(a[i] == b[i]);
        }
        assert forall|i: int| 0 <= i < a.len() implies #[trigger] a[i] < 13 by {
            assert(a[i] == step_flips(steps)[i]);
        }
    }
}

/// Where the fixed number 13 occurs once, the ball built from the entries,
/// shown with the ring turned by the offset that `SBall::new_from_vec`
/// returns, shows each entry where it was entered, and the 13 in its place.
pub proof fn lemma_entries_shown_as_entered(s: Seq<isize>)
    requires
        valid_entries(s),
        forall|i: int, j: int|
            0 <= i < 13 && 0 <= j < 13 && #[trigger] is_marker(s[i]) && #[trigger] is_marker(s[j])
                ==> i == j,
    ensures
        forall|i: int|
            0 <= i < 12 ==> #[trigger] cells_from_entries(s)[i] == encode_entry(
                s[shown_position(i, first_marker(s) + 1)],
            ),
        shown_position(12, first_marker(s) + 1) == first_marker(s),
{
    let m = choose|i: int| 0 <= i < 13 && #[trigger] is_marker(s[i]);
    assert(is_first_marker(s, m));
    let p = first_marker(s);
    assert(is_first_marker(s, p));
    assert(p == m);
    let ring = ring_after(s, p);
    assert forall|i: int| 0 <= i < ring.len() implies !#[trigger] is_marker(ring[i]) by {
        let j = (p + 1 + i) % 13;
        assert(0 <= j < 13 && j != p);
        if is_marker(ring[i]) {
            assert(is_marker(s[j]));
        }
    }
    lemma_without_markers_none(ring);
    assert forall|i: int| 0 <= i < 12 implies #[trigger] cells_from_entries(s)[i] == encode_entry(
        s[shown_position(i, p + 1)],
    ) by {
        assert(shown_position(i, p + 1) == (p + 1 + i) % 13);
    }
}

} // verus!
