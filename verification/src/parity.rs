//! The parity of the arrangement of the twelve numbers on a ball.
use vstd::prelude::*;
use vstd::set_lib::{lemma_int_range, lemma_map_size, lemma_subset_equality, set_int_range};
use crate::ball::{flip_cells, flip_source, lemma_flip_source, number_of};
use crate::cells::lemma_toggle;
use crate::moves::{play_cells, step_source, valid_flips};

verus! {

/// 1 where `x` is greater than `y`, else 0.
#[verifier::opaque]
pub open spec fn gt(x: int, y: int) -> int {
    if x > y {
        1
    } else {
        0
    }
}

/// The number of pairs of positions, among twelve, whose numbers `x0` to
/// `x11` stand in the wrong order.
pub open spec fn inv12(x0: int, x1: int, x2: int, x3: int, x4: int, x5: int, x6: int, x7: int, x8: int, x9: int, x10: int, x11: int) -> int {
    gt(x0, x1) + gt(x0, x2) + gt(x0, x3) + gt(x0, x4)
        + gt(x0, x5) + gt(x0, x6) + gt(x0, x7) + gt(x0, x8)
        + gt(x0, x9) + gt(x0, x10) + gt(x0, x11) + gt(x1, x2)
        + gt(x1, x3) + gt(x1, x4) + gt(x1, x5) + gt(x1, x6)
        + gt(x1, x7) + gt(x1, x8) + gt(x1, x9) + gt(x1, x10)
        + gt(x1, x11) + gt(x2, x3) + gt(x2, x4) + gt(x2, x5)
        + gt(x2, x6) + gt(x2, x7) + gt(x2, x8) + gt(x2, x9)
        + gt(x2, x10) + gt(x2, x11) + gt(x3, x4) + gt(x3, x5)
        + gt(x3, x6) + gt(x3, x7) + gt(x3, x8) + gt(x3, x9)
        + gt(x3, x10) + gt(x3, x11) + gt(x4, x5) + gt(x4, x6)
        + gt(x4, x7) + gt(x4, x8) + gt(x4, x9) + gt(x4, x10)
        + gt(x4, x11) + gt(x5, x6) + gt(x5, x7) + gt(x5, x8)
        + gt(x5, x9) + gt(x5, x10) + gt(x5, x11) + gt(x6, x7)
        + gt(x6, x8) + gt(x6, x9) + gt(x6, x10) + gt(x6, x11)
        + gt(x7, x8) + gt(x7, x9) + gt(x7, x10) + gt(x7, x11)
        + gt(x8, x9) + gt(x8, x10) + gt(x8, x11) + gt(x9, x10)
        + gt(x9, x11) + gt(x10, x11)
}

/// The number of pairs of positions whose numbers stand in the wrong order.
#[verifier::opaque]
pub open spec fn inversions(a: Seq<int>) -> int {
    inv12(a[0], a[1], a[2], a[3], a[4], a[5], a[6], a[7], a[8], a[9], a[10], a[11])
}

/// The numbers at the twelve positions of the cells `s`.
pub open spec fn arrangement(s: Seq<u64>) -> Seq<int> {
    Seq::new(12, |p: int| number_of(s[p]) as int)
}

/// Whether `a` holds each of the numbers 1 to 12 at one of its twelve positions.
pub open spec fn perm12(a: Seq<int>) -> bool {
    &&& a.len() == 12
    &&& forall|p: int| 0 <= p < 12 ==> 1 <= #[trigger] a[p] <= 12
    &&& forall|p: int, q: int| 0 <= p < 12 && 0 <= q < 12 && p != q ==> #[trigger] a[p] != #[trigger] a[q]
}

/// Whether the number `n` stands at exactly one position of the cells `s`.
pub open spec fn holds_once(s: Seq<u64>, n: int) -> bool {
    exists|p: int|
        0 <= p < 12 && number_of(s[p]) == n && forall|q: int|
            0 <= q < 12 && #[trigger] number_of(s[q]) == n ==> q == p
}

/// Whether each of the numbers 1 to 12 stands at exactly one position of `s`.
pub open spec fn numbers_once(s: Seq<u64>) -> bool {
    forall|n: int| 1 <= n <= 12 ==> #[trigger] holds_once(s, n)
}

/// Of two different numbers, exactly one is greater.
proof fn lemma_gt_pair(x: int, y: int)
    requires
        x != y,
    ensures
        gt(x, y) + gt(y, x) == 1,
{
    reveal(gt);
}

/// Every flip changes the parity of the inversions: it moves the positions by
/// an odd permutation (a block of four and a block of three reversed, or two
/// blocks of three exchanged).
#[verifier::spinoff_prover]
#[verifier::rlimit(50)]
pub proof fn lemma_flip_inversions(a: Seq<int>, k: int)
    requires
        perm12(a),
        0 <= k < 13,
    ensures
        inversions(Seq::new(12, |p: int| a[step_source(k, p)])) % 2 != inversions(a) % 2,
{
    let b = Seq::new(12, |p: int| a[step_source(k, p)]);
    if k == 0 {
        assert(inversions(b) % 2 != inversions(a) % 2) by {
            reveal(inversions);
            assert(b[0] == a[3]);
            assert(b[1] == a[2]);
            assert(b[2] == a[1]);
            assert(b[3] == a[0]);
            assert(b[4] == a[4]);
            assert(b[5] == a[5]);
            assert(b[6] == a[6]);
            assert(b[7] == a[9]);
            assert(b[8] == a[8]);
            assert(b[9] == a[7]);
            assert(b[10] == a[10]);
            assert(b[11] == a[11]);
            lemma_gt_pair(a[2], a[3]);
            lemma_gt_pair(a[1], a[3]);
            lemma_gt_pair(a[0], a[3]);
            lemma_gt_pair(a[1], a[2]);
            lemma_gt_pair(a[0], a[2]);
            lemma_gt_pair(a[0], a[1]);
            lemma_gt_pair(a[8], a[9]);
            lemma_gt_pair(a[7], a[9]);
            lemma_gt_pair(a[7], a[8]);
        }
    } else if k == 1 {
        assert(inversions(b) % 2 != inversions(a) % 2) by {
            reveal(inversions);
            assert(b[0] == a[0]);
            assert(b[1] == a[4]);
            assert(b[2] == a[3]);
            assert(b[3] == a[2]);
            assert(b[4] == a[1]);
            assert(b[5] == a[5]);
            assert(b[6] == a[6]);
            assert(b[7] == a[7]);
            assert(b[8] == a[10]);
            assert(b[9] == a[9]);
            assert(b[10] == a[8]);
            assert(b[11] == a[11]);
            lemma_gt_pair(a[3], a[4]);
            lemma_gt_pair(a[2], a[4]);
            lemma_gt_pair(a[1], a[4]);
            lemma_gt_pair(a[2], a[3]);
            lemma_gt_pair(a[1], a[3]);
            lemma_gt_pair(a[1], a[2]);
            lemma_gt_pair(a[9], a[10]);
            lemma_gt_pair(a[8], a[10]);
            lemma_gt_pair(a[8], a[9]);
        }
    } else if k == 2 {
        assert(inversions(b) % 2 != inversions(a) % 2) by {
            reveal(inversions);
            assert(b[0] == a[0]);
            assert(b[1] == a[1]);
            assert(b[2] == a[5]);
            assert(b[3] == a[4]);
            assert(b[4] == a[3]);
            assert(b[5] == a[2]);
            assert(b[6] == a[6]);
            assert(b[7] == a[7]);
            assert(b[8] == a[8]);
            assert(b[9] == a[11]);
            assert(b[10] == a[10]);
            assert(b[11] == a[9]);
            lemma_gt_pair(a[4], a[5]);
            lemma_gt_pair(a[3], a[5]);
            lemma_gt_pair(a[2], a[5]);
            lemma_gt_pair(a[3], a[4]);
            lemma_gt_pair(a[2], a[4]);
            lemma_gt_pair(a[2], a[3]);
            lemma_gt_pair(a[10], a[11]);
            lemma_gt_pair(a[9], a[11]);
            lemma_gt_pair(a[9], a[10]);
        }
    } else if k == 3 {
        assert(inversions(b) % 2 != inversions(a) % 2) by {
            reveal(inversions);
            assert(b[0] == a[2]);
            assert(b[1] == a[1]);
            assert(b[2] == a[0]);
            assert(b[3] == a[3]);
            assert(b[4] == a[4]);
            assert(b[5] == a[5]);
            assert(b[6] == a[9]);
            assert(b[7] == a[8]);
            assert(b[8] == a[7]);
            assert(b[9] == a[6]);
            assert(b[10] == a[10]);
            assert(b[11] == a[11]);
            lemma_gt_pair(a[1], a[2]);
            lemma_gt_pair(a[0], a[2]);
            lemma_gt_pair(a[0], a[1]);
            lemma_gt_pair(a[8], a[9]);
            lemma_gt_pair(a[7], a[9]);
            lemma_gt_pair(a[6], a[9]);
            lemma_gt_pair(a[7], a[8]);
            lemma_gt_pair(a[6], a[8]);
            lemma_gt_pair(a[6], a[7]);
        }
    } else if k == 4 {
        assert(inversions(b) % 2 != inversions(a) % 2) by {
            reveal(inversions);
            assert(b[0] == a[0]);
            assert(b[1] == a[3]);
            assert(b[2] == a[2]);
            assert(b[3] == a[1]);
            assert(b[4] == a[4]);
            assert(b[5] == a[5]);
            assert(b[6] == a[6]);
            assert(b[7] == a[10]);
            assert(b[8] == a[9]);
            assert(b[9] == a[8]);
            assert(b[10] == a[7]);
            assert(b[11] == a[11]);
            lemma_gt_pair(a[2], a[3]);
            lemma_gt_pair(a[1], a[3]);
            lemma_gt_pair(a[1], a[2]);
            lemma_gt_pair(a[9], a[10]);
            lemma_gt_pair(a[8], a[10]);
            lemma_gt_pair(a[7], a[10]);
            lemma_gt_pair(a[8], a[9]);
            lemma_gt_pair(a[7], a[9]);
            lemma_gt_pair(a[7], a[8]);
        }
    } else if k == 5 {
        assert(inversions(b) % 2 != inversions(a) % 2) by {
            reveal(inversions);
            assert(b[0] == a[0]);
            assert(b[1] == a[1]);
            assert(b[2] == a[4]);
            assert(b[3] == a[3]);
            assert(b[4] == a[2]);
            assert(b[5] == a[5]);
            assert(b[6] == a[6]);
            assert(b[7] == a[7]);
            assert(b[8] == a[11]);
            assert(b[9] == a[10]);
            assert(b[10] == a[9]);
            assert(b[11] == a[8]);
            lemma_gt_pair(a[3], a[4]);
            lemma_gt_pair(a[2], a[4]);
            lemma_gt_pair(a[2], a[3]);
            lemma_gt_pair(a[10], a[11]);
            lemma_gt_pair(a[9], a[11]);
            lemma_gt_pair(a[8], a[11]);
            lemma_gt_pair(a[9], a[10]);
            lemma_gt_pair(a[8], a[10]);
            lemma_gt_pair(a[8], a[9]);
        }
    } else if k == 6 {
        assert(inversions(b) % 2 != inversions(a) % 2) by {
            reveal(inversions);
            assert(b[0] == a[9]);
            assert(b[1] == a[8]);
            assert(b[2] == a[7]);
            assert(b[3] == a[3]);
            assert(b[4] == a[4]);
            assert(b[5] == a[5]);
            assert(b[6] == a[6]);
            assert(b[7] == a[2]);
            assert(b[8] == a[1]);
            assert(b[9] == a[0]);
            assert(b[10] == a[10]);
            assert(b[11] == a[11]);
            lemma_gt_pair(a[8], a[9]);
            lemma_gt_pair(a[7], a[9]);
            lemma_gt_pair(a[3], a[9]);
            lemma_gt_pair(a[4], a[9]);
            lemma_gt_pair(a[5], a[9]);
            lemma_gt_pair(a[6], a[9]);
            lemma_gt_pair(a[2], a[9]);
            lemma_gt_pair(a[1], a[9]);
            lemma_gt_pair(a[0], a[9]);
            lemma_gt_pair(a[7], a[8]);
            lemma_gt_pair(a[3], a[8]);
            lemma_gt_pair(a[4], a[8]);
            lemma_gt_pair(a[5], a[8]);
            lemma_gt_pair(a[6], a[8]);
            lemma_gt_pair(a[2], a[8]);
            lemma_gt_pair(a[1], a[8]);
            lemma_gt_pair(a[0], a[8]);
            lemma_gt_pair(a[3], a[7]);
            lemma_gt_pair(a[4], a[7]);
            lemma_gt_pair(a[5], a[7]);
            lemma_gt_pair(a[6], a[7]);
            lemma_gt_pair(a[2], a[7]);
            lemma_gt_pair(a[1], a[7]);
            lemma_gt_pair(a[0], a[7]);
            lemma_gt_pair(a[2], a[3]);
            lemma_gt_pair(a[1], a[3]);
            lemma_gt_pair(a[0], a[3]);
            lemma_gt_pair(a[2], a[4]);
            lemma_gt_pair(a[1], a[4]);
            lemma_gt_pair(a[0], a[4]);
            lemma_gt_pair(a[2], a[5]);
            lemma_gt_pair(a[1], a[5]);
            lemma_gt_pair(a[0], a[5]);
            lemma_gt_pair(a[2], a[6]);
            lemma_gt_pair(a[1], a[6]);
            lemma_gt_pair(a[0], a[6]);
            lemma_gt_pair(a[1], a[2]);
            lemma_gt_pair(a[0], a[2]);
            lemma_gt_pair(a[0], a[1]);
        }
    } else if k == 7 {
        assert(inversions(b) % 2 != inversions(a) % 2) by {
            reveal(inversions);
            assert(b[0] == a[0]);
            assert(b[1] == a[10]);
            assert(b[2] == a[9]);
            assert(b[3] == a[8]);
            assert(b[4] == a[4]);
            assert(b[5] == a[5]);
            assert(b[6] == a[6]);
            assert(b[7] == a[7]);
            assert(b[8] == a[3]);
            assert(b[9] == a[2]);
            assert(b[10] == a[1]);
            assert(b[11] == a[11]);
            lemma_gt_pair(a[9], a[10]);
            lemma_gt_pair(a[8], a[10]);
            lemma_gt_pair(a[4], a[10]);
            lemma_gt_pair(a[5], a[10]);
            lemma_gt_pair(a[6], a[10]);
            lemma_gt_pair(a[7], a[10]);
            lemma_gt_pair(a[3], a[10]);
            lemma_gt_pair(a[2], a[10]);
            lemma_gt_pair(a[1], a[10]);
            lemma_gt_pair(a[8], a[9]);
            lemma_gt_pair(a[4], a[9]);
            lemma_gt_pair(a[5], a[9]);
            lemma_gt_pair(a[6], a[9]);
            lemma_gt_pair(a[7], a[9]);
            lemma_gt_pair(a[3], a[9]);
            lemma_gt_pair(a[2], a[9]);
            lemma_gt_pair(a[1], a[9]);
            lemma_gt_pair(a[4], a[8]);
            lemma_gt_pair(a[5], a[8]);
            lemma_gt_pair(a[6], a[8]);
            lemma_gt_pair(a[7], a[8]);
            lemma_gt_pair(a[3], a[8]);
            lemma_gt_pair(a[2], a[8]);
            lemma_gt_pair(a[1], a[8]);
            lemma_gt_pair(a[3], a[4]);
            lemma_gt_pair(a[2], a[4]);
            lemma_gt_pair(a[1], a[4]);
            lemma_gt_pair(a[3], a[5]);
            lemma_gt_pair(a[2], a[5]);
            lemma_gt_pair(a[1], a[5]);
            lemma_gt_pair(a[3], a[6]);
            lemma_gt_pair(a[2], a[6]);
            lemma_gt_pair(a[1], a[6]);
            lemma_gt_pair(a[3], a[7]);
            lemma_gt_pair(a[2], a[7]);
            lemma_gt_pair(a[1], a[7]);
            lemma_gt_pair(a[2], a[3]);
            lemma_gt_pair(a[1], a[3]);
            lemma_gt_pair(a[1], a[2]);
        }
    } else if k == 8 {
        assert(inversions(b) % 2 != inversions(a) % 2) by {
            reveal(inversions);
            assert(b[0] == a[0]);
            assert(b[1] == a[1]);
            assert(b[2] == a[11]);
            assert(b[3] == a[10]);
            assert(b[4] == a[9]);
            assert(b[5] == a[5]);
            assert(b[6] == a[6]);
            assert(b[7] == a[7]);
            assert(b[8] == a[8]);
            assert(b[9] == a[4]);
            assert(b[10] == a[3]);
            assert(b[11] == a[2]);
            lemma_gt_pair(a[10], a[11]);
            lemma_gt_pair(a[9], a[11]);
            lemma_gt_pair(a[5], a[11]);
            lemma_gt_pair(a[6], a[11]);
            lemma_gt_pair(a[7], a[11]);
            lemma_gt_pair(a[8], a[11]);
            lemma_gt_pair(a[4], a[11]);
            lemma_gt_pair(a[3], a[11]);
            lemma_gt_pair(a[2], a[11]);
            lemma_gt_pair(a[9], a[10]);
            lemma_gt_pair(a[5], a[10]);
            lemma_gt_pair(a[6], a[10]);
            lemma_gt_pair(a[7], a[10]);
            lemma_gt_pair(a[8], a[10]);
            lemma_gt_pair(a[4], a[10]);
            lemma_gt_pair(a[3], a[10]);
            lemma_gt_pair(a[2], a[10]);
            lemma_gt_pair(a[5], a[9]);
            lemma_gt_pair(a[6], a[9]);
            lemma_gt_pair(a[7], a[9]);
            lemma_gt_pair(a[8], a[9]);
            lemma_gt_pair(a[4], a[9]);
            lemma_gt_pair(a[3], a[9]);
            lemma_gt_pair(a[2], a[9]);
            lemma_gt_pair(a[4], a[5]);
            lemma_gt_pair(a[3], a[5]);
            lemma_gt_pair(a[2], a[5]);
            lemma_gt_pair(a[4], a[6]);
            lemma_gt_pair(a[3], a[6]);
            lemma_gt_pair(a[2], a[6]);
            lemma_gt_pair(a[4], a[7]);
            lemma_gt_pair(a[3], a[7]);
            lemma_gt_pair(a[2], a[7]);
            lemma_gt_pair(a[4], a[8]);
            lemma_gt_pair(a[3], a[8]);
            lemma_gt_pair(a[2], a[8]);
            lemma_gt_pair(a[3], a[4]);
            lemma_gt_pair(a[2], a[4]);
            lemma_gt_pair(a[2], a[3]);
        }
    } else if k == 9 {
        assert(inversions(b) % 2 != inversions(a) % 2) by {
            reveal(inversions);
            assert(b[0] == a[8]);
            assert(b[1] == a[7]);
            assert(b[2] == a[6]);
            assert(b[3] == a[3]);
            assert(b[4] == a[4]);
            assert(b[5] == a[5]);
            assert(b[6] == a[2]);
            assert(b[7] == a[1]);
            assert(b[8] == a[0]);
            assert(b[9] == a[9]);
            assert(b[10] == a[10]);
            assert(b[11] == a[11]);
            lemma_gt_pair(a[7], a[8]);
            lemma_gt_pair(a[6], a[8]);
            lemma_gt_pair(a[3], a[8]);
            lemma_gt_pair(a[4], a[8]);
            lemma_gt_pair(a[5], a[8]);
            lemma_gt_pair(a[2], a[8]);
            lemma_gt_pair(a[1], a[8]);
            lemma_gt_pair(a[0], a[8]);
            lemma_gt_pair(a[6], a[7]);
            lemma_gt_pair(a[3], a[7]);
            lemma_gt_pair(a[4], a[7]);
            lemma_gt_pair(a[5], a[7]);
            lemma_gt_pair(a[2], a[7]);
            lemma_gt_pair(a[1], a[7]);
            lemma_gt_pair(a[0], a[7]);
            lemma_gt_pair(a[3], a[6]);
            lemma_gt_pair(a[4], a[6]);
            lemma_gt_pair(a[5], a[6]);
            lemma_gt_pair(a[2], a[6]);
            lemma_gt_pair(a[1], a[6]);
            lemma_gt_pair(a[0], a[6]);
            lemma_gt_pair(a[2], a[3]);
            lemma_gt_pair(a[1], a[3]);
            lemma_gt_pair(a[0], a[3]);
            lemma_gt_pair(a[2], a[4]);
            lemma_gt_pair(a[1], a[4]);
            lemma_gt_pair(a[0], a[4]);
            lemma_gt_pair(a[2], a[5]);
            lemma_gt_pair(a[1], a[5]);
            lemma_gt_pair(a[0], a[5]);
            lemma_gt_pair(a[1], a[2]);
            lemma_gt_pair(a[0], a[2]);
            lemma_gt_pair(a[0], a[1]);
        }
    } else if k == 10 {
        assert(inversions(b) % 2 != inversions(a) % 2) by {
            reveal(inversions);
            assert(b[0] == a[0]);
            assert(b[1] == a[9]);
            assert(b[2] == a[8]);
            assert(b[3] == a[7]);
            assert(b[4] == a[4]);
            assert(b[5] == a[5]);
            assert(b[6] == a[6]);
            assert(b[7] == a[3]);
            assert(b[8] == a[2]);
            assert(b[9] == a[1]);
            assert(b[10] == a[10]);
            assert(b[11] == a[11]);
            lemma_gt_pair(a[8], a[9]);
            lemma_gt_pair(a[7], a[9]);
            lemma_gt_pair(a[4], a[9]);
            lemma_gt_pair(a[5], a[9]);
            lemma_gt_pair(a[6], a[9]);
            lemma_gt_pair(a[3], a[9]);
            lemma_gt_pair(a[2], a[9]);
            lemma_gt_pair(a[1], a[9]);
            lemma_gt_pair(a[7], a[8]);
            lemma_gt_pair(a[4], a[8]);
            lemma_gt_pair(a[5], a[8]);
            lemma_gt_pair(a[6], a[8]);
            lemma_gt_pair(a[3], a[8]);
            lemma_gt_pair(a[2], a[8]);
            lemma_gt_pair(a[1], a[8]);
            lemma_gt_pair(a[4], a[7]);
            lemma_gt_pair(a[5], a[7]);
            lemma_gt_pair(a[6], a[7]);
            lemma_gt_pair(a[3], a[7]);
            lemma_gt_pair(a[2], a[7]);
            lemma_gt_pair(a[1], a[7]);
            lemma_gt_pair(a[3], a[4]);
            lemma_gt_pair(a[2], a[4]);
            lemma_gt_pair(a[1], a[4]);
            lemma_gt_pair(a[3], a[5]);
            lemma_gt_pair(a[2], a[5]);
            lemma_gt_pair(a[1], a[5]);
            lemma_gt_pair(a[3], a[6]);
            lemma_gt_pair(a[2], a[6]);
            lemma_gt_pair(a[1], a[6]);
            lemma_gt_pair(a[2], a[3]);
            lemma_gt_pair(a[1], a[3]);
            lemma_gt_pair(a[1], a[2]);
        }
    } else if k == 11 {
        assert(inversions(b) % 2 != inversions(a) % 2) by {
            reveal(inversions);
            assert(b[0] == a[0]);
            assert(b[1] == a[1]);
            assert(b[2] == a[10]);
            assert(b[3] == a[9]);
            assert(b[4] == a[8]);
            assert(b[5] == a[5]);
            assert(b[6] == a[6]);
            assert(b[7] == a[7]);
            assert(b[8] == a[4]);
            assert(b[9] == a[3]);
            assert(b[10] == a[2]);
            assert(b[11] == a[11]);
            lemma_gt_pair(a[9], a[10]);
            lemma_gt_pair(a[8], a[10]);
            lemma_gt_pair(a[5], a[10]);
            lemma_gt_pair(a[6], a[10]);
            lemma_gt_pair(a[7], a[10]);
            lemma_gt_pair(a[4], a[10]);
            lemma_gt_pair(a[3], a[10]);
            lemma_gt_pair(a[2], a[10]);
            lemma_gt_pair(a[8], a[9]);
            lemma_gt_pair(a[5], a[9]);
            lemma_gt_pair(a[6], a[9]);
            lemma_gt_pair(a[7], a[9]);
            lemma_gt_pair(a[4], a[9]);
            lemma_gt_pair(a[3], a[9]);
            lemma_gt_pair(a[2], a[9]);
            lemma_gt_pair(a[5], a[8]);
            lemma_gt_pair(a[6], a[8]);
            lemma_gt_pair(a[7], a[8]);
            lemma_gt_pair(a[4], a[8]);
            lemma_gt_pair(a[3], a[8]);
            lemma_gt_pair(a[2], a[8]);
            lemma_gt_pair(a[4], a[5]);
            lemma_gt_pair(a[3], a[5]);
            lemma_gt_pair(a[2], a[5]);
            lemma_gt_pair(a[4], a[6]);
            lemma_gt_pair(a[3], a[6]);
            lemma_gt_pair(a[2], a[6]);
            lemma_gt_pair(a[4], a[7]);
            lemma_gt_pair(a[3], a[7]);
            lemma_gt_pair(a[2], a[7]);
            lemma_gt_pair(a[3], a[4]);
            lemma_gt_pair(a[2], a[4]);
            lemma_gt_pair(a[2], a[3]);
        }
    } else {
        assert(inversions(b) % 2 != inversions(a) % 2) by {
            reveal(inversions);
            assert(b[0] == a[0]);
            assert(b[1] == a[1]);
            assert(b[2] == a[2]);
            assert(b[3] == a[11]);
            assert(b[4] == a[10]);
            assert(b[5] == a[9]);
            assert(b[6] == a[6]);
            assert(b[7] == a[7]);
            assert(b[8] == a[8]);
            assert(b[9] == a[5]);
            assert(b[10] == a[4]);
            assert(b[11] == a[3]);
            lemma_gt_pair(a[10], a[11]);
            lemma_gt_pair(a[9], a[11]);
            lemma_gt_pair(a[6], a[11]);
            lemma_gt_pair(a[7], a[11]);
            lemma_gt_pair(a[8], a[11]);
            lemma_gt_pair(a[5], a[11]);
            lemma_gt_pair(a[4], a[11]);
            lemma_gt_pair(a[3], a[11]);
            lemma_gt_pair(a[9], a[10]);
            lemma_gt_pair(a[6], a[10]);
            lemma_gt_pair(a[7], a[10]);
            lemma_gt_pair(a[8], a[10]);
            lemma_gt_pair(a[5], a[10]);
            lemma_gt_pair(a[4], a[10]);
            lemma_gt_pair(a[3], a[10]);
            lemma_gt_pair(a[6], a[9]);
            lemma_gt_pair(a[7], a[9]);
            lemma_gt_pair(a[8], a[9]);
            lemma_gt_pair(a[5], a[9]);
            lemma_gt_pair(a[4], a[9]);
            lemma_gt_pair(a[3], a[9]);
            lemma_gt_pair(a[5], a[6]);
            lemma_gt_pair(a[4], a[6]);
            lemma_gt_pair(a[3], a[6]);
            lemma_gt_pair(a[5], a[7]);
            lemma_gt_pair(a[4], a[7]);
            lemma_gt_pair(a[3], a[7]);
            lemma_gt_pair(a[5], a[8]);
            lemma_gt_pair(a[4], a[8]);
            lemma_gt_pair(a[3], a[8]);
            lemma_gt_pair(a[4], a[5]);
            lemma_gt_pair(a[3], a[5]);
            lemma_gt_pair(a[3], a[4]);
        }
    }
}


} // verus!
verus! {

/// After flip `k`, each position holds the number of its source position.
pub proof fn lemma_arrangement_flip(s: Seq<u64>, k: int)
    requires
        s.len() == 12,
        0 <= k < 13,
    ensures
        arrangement(flip_cells(s, k)) == Seq::new(12, |p: int| arrangement(s)[step_source(k, p)]),
{
    let t = flip_cells(s, k);
    assert forall|p: int| 0 <= p < 12 implies #[trigger] arrangement(t)[p] == arrangement(s)[step_source(
        k,
        p,
    )] by {
        lemma_flip_source(k, p);
        if flip_source(k, p) >= 0 {
            lemma_toggle(s[flip_source(k, p)]);
        }
    }
    assert(arrangement(t) =~= Seq::new(12, |p: int| arrangement(s)[step_source(k, p)]));
}

/// Moving the positions by flip `k` keeps each of 1 to 12 once.
proof fn lemma_perm_flip(a: Seq<int>, k: int)
    requires
        perm12(a),
        0 <= k < 13,
    ensures
        perm12(Seq::new(12, |p: int| a[step_source(k, p)])),
{
    let b = Seq::new(12, |p: int| a[step_source(k, p)]);
    assert forall|p: int| 0 <= p < 12 implies 1 <= #[trigger] b[p] <= 12 by {
        lemma_flip_source(k, p);
    }
    assert forall|p: int, q: int| 0 <= p < 12 && 0 <= q < 12 && p != q implies #[trigger] b[p]
        != #[trigger] b[q] by {
        lemma_flip_source(k, p);
        lemma_flip_source(k, q);
        assert(a[step_source(k, p)] != a[step_source(k, q)]);
    }
}

/// Flips keep each of 1 to 12 once, and each flip changes the parity of the
/// inversions.
pub proof fn lemma_play_parity(s: Seq<u64>, f: Seq<usize>)
    requires
        s.len() == 12,
        valid_flips(f),
        perm12(arrangement(s)),
    ensures
        perm12(arrangement(play_cells(s, f))),
        inversions(arrangement(play_cells(s, f))) % 2 == (inversions(arrangement(s)) + f.len()) % 2,
    decreases f.len(),
{
    if f.len() > 0 {
        let g = f.drop_last();
        assert forall|i: int| 0 <= i < g.len() implies #[trigger] g[i] < 13 by {
            assert(g[i] == f[i]);
        }
        lemma_play_parity(s, g);
        crate::moves::lemma_play_len(s, g);
        let k = f.last() as int;
        assert(f[f.len() - 1] < 13);
        let u = play_cells(s, g);
        lemma_arrangement_flip(u, k);
        lemma_perm_flip(arrangement(u), k);
        lemma_flip_inversions(arrangement(u), k);
    }
}

/// The numbers 1 to 10 in place: the inversions are even exactly where 11
/// and 12 are in place too.
pub proof fn lemma_installed_parity(a: Seq<int>)
    requires
        perm12(a),
        forall|i: int| 0 <= i < 10 ==> #[trigger] a[i] == i + 1,
    ensures
        inversions(a) % 2 == 0 <==> forall|i: int| 0 <= i < 12 ==> #[trigger] a[i] == i + 1,
{
    assert(a[0] == 1 && a[1] == 2 && a[2] == 3 && a[3] == 4 && a[4] == 5);
    assert(a[5] == 6 && a[6] == 7 && a[7] == 8 && a[8] == 9 && a[9] == 10);
    assert forall|i: int| 0 <= i < 10 implies a[10] != #[trigger] a[i] && a[11] != a[i] by {}
    assert(a[10] != a[11]);
    reveal(gt);
    reveal(inversions);
    if a[10] == 11 {
        assert(a[11] == 12);
        assert(inversions(a) == 0);
    } else {
        assert(a[10] == 12 && a[11] == 11);
        assert(inversions(a) == 1);
    }
}

/// Each of 1 to 12 once, said by positions: the twelve positions hold
/// different numbers from 1 to 12 exactly where each number is at exactly one
/// position.
pub proof fn lemma_numbers_once(s: Seq<u64>)
    requires
        s.len() == 12,
    ensures
        numbers_once(s) <==> perm12(arrangement(s)),
{
    let a = arrangement(s);
    lemma_int_range(0, 12);
    lemma_int_range(1, 13);
    if numbers_once(s) {
        let pos = |n: int| choose|p: int|
            0 <= p < 12 && number_of(s[p]) == n && forall|q: int|
                0 <= q < 12 && #[trigger] number_of(s[q]) == n ==> q == p;
        let x = set_int_range(1, 13);
        assert forall|n: int| 1 <= n <= 12 implies 0 <= #[trigger] pos(n) < 12 && number_of(
            s[pos(n)],
        ) == n by {
            assert(holds_once(s, n));
        }
        assert(vstd::relations::injective_on(pos, x)) by {
            assert forall|n: int, m: int| x.contains(n) && x.contains(m) && #[trigger] pos(n)
                == #[trigger] pos(m) implies n == m by {}
        }
        let y = x.map(pos);
        lemma_map_size(x, y, pos);
        assert(y.subset_of(set_int_range(0, 12))) by {
            assert forall|p: int| y.contains(p) implies set_int_range(0, 12).contains(p) by {
                let n = choose|n: int| x.contains(n) && pos(n) == p;
            }
        }
        lemma_subset_equality(y, set_int_range(0, 12));
        assert forall|p: int| 0 <= p < 12 implies 1 <= #[trigger] a[p] <= 12 by {
            assert(set_int_range(0, 12).contains(p));
            assert(y.contains(p));
            let n = choose|n: int| x.contains(n) && pos(n) == p;
        }
        assert forall|p: int, q: int| 0 <= p < 12 && 0 <= q < 12 && p != q implies #[trigger] a[p]
            != #[trigger] a[q] by {
            if a[p] == a[q] {
                let n = a[p];
                assert(holds_once(s, n));
                let r = choose|r: int|
                    0 <= r < 12 && number_of(s[r]) == n && forall|q: int|
                        0 <= q < 12 && #[trigger] number_of(s[q]) == n ==> q == r;
                assert(number_of(s[p]) == n);
                assert(number_of(s[q]) == n);
            }
        }
    }
    if perm12(a) {
        let f = |p: int| a[p];
        let x = set_int_range(0, 12);
        assert(vstd::relations::injective_on(f, x)) by {
            assert forall|p: int, q: int| x.contains(p) && x.contains(q) && #[trigger] f(p)
                == #[trigger] f(q) implies p == q by {}
        }
        let y = x.map(f);
        lemma_map_size(x, y, f);
        assert(y.subset_of(set_int_range(1, 13))) by {
            assert forall|n: int| y.contains(n) implies set_int_range(1, 13).contains(n) by {
                let p = choose|p: int| x.contains(p) && f(p) == n;
            }
        }
        lemma_subset_equality(y, set_int_range(1, 13));
        assert forall|n: int| 1 <= n <= 12 implies #[trigger] holds_once(s, n) by {
            assert(set_int_range(1, 13).contains(n));
            assert(y.contains(n));
            let p = choose|p: int| x.contains(p) && f(p) == n;
            assert(number_of(s[p]) == n);
            assert forall|q: int| 0 <= q < 12 && #[trigger] number_of(s[q]) == n implies q == p by {
                assert(a[q] == n);
            }
        }
    }
}

} // verus!
