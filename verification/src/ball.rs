//! The ball: twelve movable numbers, each with a colour, packed into a word.
//!
//! Cell `i` of the word (see `cells`) holds the number in position `i` shifted
//! left by one, with its colour in the lowest bit.  Positions run along the
//! ring of the ball; the fixed thirteenth number is not stored.
use vstd::prelude::*;
use crate::cells::{
    cell, flip_table_entry, flipped_cell, in_block, lemma_clear_blocks,
    lemma_extract_block, lemma_place_block, lemma_cells_determine, lemma_toggle, N_MASK_3,
    N_MASK_4,
};

verus! {

/// The word of the solved ball: position `i` holds number `i + 1`, colour 0.
pub const N_SOLVED: u64 = 0b11000_10110_10100_10010_10000_01110_01100_01010_01000_00110_00100_00010;

/// The colour bits of all twelve positions.
pub const N_COLOR_BITS: u64 = 0b00001_00001_00001_00001_00001_00001_00001_00001_00001_00001_00001_00001;

/// The number bits of all twelve positions.
pub const N_NUMBER_BITS: u64 = 0b11110_11110_11110_11110_11110_11110_11110_11110_11110_11110_11110_11110;

/// A ball: cell `i` of `n_cells` is position `i` (see the module's doc).
#[derive(PartialEq, Eq, Structural, Clone, Copy, Hash, Debug)]
pub struct SBall {
    pub n_cells: u64,
}

impl View for SBall {
    type V = Seq<u64>;

    /// The twelve cells of the ball, by position.
    open spec fn view(&self) -> Seq<u64> {
        Seq::new(12, |i: int| cell(self.n_cells, i))
    }
}

/// The number that a cell holds.
pub open spec fn number_of(c: u64) -> u64 {
    c >> 1
}

/// The colour that a cell holds.
pub open spec fn color_of(c: u64) -> u64 {
    c & 1
}

/// The cells of the solved ball: number `i + 1` at position `i`, colour 0.
pub open spec fn solved_cells() -> Seq<u64> {
    Seq::new(12, |i: int| (2 * i + 2) as u64)
}

/// Whether position `i` holds number `i + 1` for every position.
pub open spec fn numbers_in_place(s: Seq<u64>) -> bool {
    forall|i: int| 0 <= i < 12 ==> #[trigger] number_of(s[i]) == i + 1
}

/// Whether every position holds colour 0.
pub open spec fn colors_in_place(s: Seq<u64>) -> bool {
    forall|i: int| 0 <= i < 12 ==> #[trigger] color_of(s[i]) == 0
}

/// The solved ball has every number in its place and every colour 0.
pub proof fn lemma_solved_state()
    ensures
        numbers_in_place(solved_cells()),
        colors_in_place(solved_cells()),
{
    assert(forall|y: u64| y < 16 ==> (#[trigger] ((y * 2) as u64) >> 1) == y && ((y * 2) as u64) & 1
        == 0) by (bit_vector);
    assert forall|i: int| 0 <= i < 12 implies #[trigger] number_of(solved_cells()[i]) == i + 1 by {
        let y = (i + 1) as u64;
        let x = (y * 2) as u64;
        assert(solved_cells()[i] == x);
        assert(x >> 1 == y && x & 1 == 0);
    }
    assert forall|i: int| 0 <= i < 12 implies #[trigger] color_of(solved_cells()[i]) == 0 by {
        let y = (i + 1) as u64;
        let x = (y * 2) as u64;
        assert(solved_cells()[i] == x);
        assert(x >> 1 == y && x & 1 == 0);
    }
}

/// First cell of the four-cell block that primary flip `k` turns.
pub open spec fn pri_start_4_spec(k: int) -> int {
    if k == 0 {
        0
    } else if k == 1 {
        1
    } else if k == 2 {
        2
    } else if k == 3 {
        6
    } else if k == 4 {
        7
    } else {
        8
    }
}

/// First cell of the three-cell block that primary flip `k` turns.
pub open spec fn pri_start_3_spec(k: int) -> int {
    if k == 0 {
        7
    } else if k == 1 {
        8
    } else if k == 2 {
        9
    } else if k == 3 {
        0
    } else if k == 4 {
        1
    } else {
        2
    }
}

/// First cell of the lower three-cell block that secondary flip `k` exchanges.
pub open spec fn sec_start_lo_spec(k: int) -> int {
    if k <= 2 {
        k
    } else {
        k + 3
    }
}

/// First cell of the upper three-cell block that secondary flip `k` exchanges.
pub open spec fn sec_start_hi_spec(k: int) -> int {
    if k <= 2 {
        k + 7
    } else {
        k - 3
    }
}

/// Where flip `k` (0..6 primary, 6..13 secondary) takes the cell that ends up
/// at position `p` from, or -1 where the flip leaves position `p` alone.
pub open spec fn flip_source(k: int, p: int) -> int {
    if k < 6 {
        let a = pri_start_4_spec(k);
        let b = pri_start_3_spec(k);
        if in_block(p, a, 4) {
            2 * a + 3 - p
        } else if in_block(p, b, 3) {
            2 * b + 2 - p
        } else {
            -1
        }
    } else {
        let a = sec_start_lo_spec(k - 6);
        let b = sec_start_hi_spec(k - 6);
        if in_block(p, a, 3) {
            b + 2 - (p - a)
        } else if in_block(p, b, 3) {
            a + 2 - (p - b)
        } else {
            -1
        }
    }
}

/// The cells after flip `k`: each moved cell comes from its source position
/// with its colour toggled; the other cells stay.
pub open spec fn flip_cells(s: Seq<u64>, k: int) -> Seq<u64> {
    Seq::new(
        12,
        |p: int|
            if flip_source(k, p) >= 0 {
                s[flip_source(k, p)] ^ 1
            } else {
                s[p]
            },
    )
}

fn pri_start_4(n_flip: usize) -> (r: u64)
    requires
        n_flip < 6,
    ensures
        r == pri_start_4_spec(n_flip as int),
{
    if n_flip < 3 {
        n_flip as u64
    } else {
        n_flip as u64 + 3
    }
}

fn pri_start_3(n_flip: usize) -> (r: u64)
    requires
        n_flip < 6,
    ensures
        r == pri_start_3_spec(n_flip as int),
{
    if n_flip < 3 {
        n_flip as u64 + 7
    } else {
        n_flip as u64 - 3
    }
}

fn sec_start_lo(n_flip: usize) -> (r: u64)
    requires
        n_flip < 7,
    ensures
        r == sec_start_lo_spec(n_flip as int),
{
    if n_flip <= 2 {
        n_flip as u64
    } else {
        n_flip as u64 + 3
    }
}

fn sec_start_hi(n_flip: usize) -> (r: u64)
    requires
        n_flip < 7,
    ensures
        r == sec_start_hi_spec(n_flip as int),
{
    if n_flip <= 2 {
        n_flip as u64 + 7
    } else {
        n_flip as u64 - 3
    }
}

impl SBall {
    /// The four bits above the twelve cells.
    pub open spec fn high(&self) -> u64 {
        cell(self.n_cells, 12)
    }

    /// A well-formed ball keeps the four bits above its twelve cells at zero;
    /// the constructors build such balls and the flips keep them so.
    pub open spec fn wf(&self) -> bool {
        self.high() == 0
    }

    /// Primary flip `n_flip`: turns a block of four and a block of three cells
    /// around, toggling their colours.
    pub fn primary_flip(&mut self, n_flip: usize)
        requires
            n_flip < 6,
        ensures
            final(self)@ == flip_cells(old(self)@, n_flip as int),
            final(self).high() == old(self).high(),
    {
        let a = pri_start_4(n_flip);
        let b = pri_start_3(n_flip);
        let s4: u64 = a * 5;
        let s3: u64 = b * 5;
        let n = self.n_cells;
        let n_4_to_be_flipped = (n & (N_MASK_4 << s4)) >> s4;
        let n_3_to_be_flipped = (n & (N_MASK_3 << s3)) >> s3;
        let t4 = flip_table_entry(n_4_to_be_flipped, 4);
        let t3 = flip_table_entry(n_3_to_be_flipped, 3);
        let r1 = n & !((N_MASK_4 << s4) | (N_MASK_3 << s3));
        let r2 = r1 | (t4 << s4);
        let r3 = r2 | (t3 << s3);
        proof {
            assert forall|p: int| 0 <= p < 13 implies #[trigger] cell(r3, p) == if flip_source(
                n_flip as int,
                p,
            ) >= 0 {
                cell(n, flip_source(n_flip as int, p)) ^ 1
            } else {
                cell(n, p)
            } by {
                lemma_clear_blocks(n, a, 4, N_MASK_4, b, 3, N_MASK_3, p as u64);
                lemma_place_block(r1, t4, a, 4, p as u64);
                lemma_place_block(r2, t3, b, 3, p as u64);
                if in_block(p, a as int, 4) {
                    let j = 3 - (p - a);
                    lemma_extract_block(n, a, 4, N_MASK_4, j as u64);
                    assert(cell(t4, p - a) == flipped_cell(n_4_to_be_flipped, 4, p - a));
                } else if in_block(p, b as int, 3) {
                    let j = 2 - (p - b);
                    lemma_extract_block(n, b, 3, N_MASK_3, j as u64);
                    assert(cell(t3, p - b) == flipped_cell(n_3_to_be_flipped, 3, p - b));
                }
            }
        }
        self.n_cells = r3;
        proof {
            assert(self@ =~= flip_cells(old(self)@, n_flip as int));
        }
    }

    /// Secondary flip `n_flip`: exchanges two blocks of three cells, turning
    /// each around and toggling their colours.
    pub fn secondary_flip(&mut self, n_flip: usize)
        requires
            n_flip < 7,
        ensures
            final(self)@ == flip_cells(old(self)@, n_flip + 6),
            final(self).high() == old(self).high(),
    {
        let a = sec_start_lo(n_flip);
        let b = sec_start_hi(n_flip);
        let s_lo: u64 = a * 5;
        let s_hi: u64 = b * 5;
        let n = self.n_cells;
        let n_lo_to_be_flipped = (n & (N_MASK_3 << s_lo)) >> s_lo;
        let n_hi_to_be_flipped = (n & (N_MASK_3 << s_hi)) >> s_hi;
        let t_lo = flip_table_entry(n_lo_to_be_flipped, 3);
        let t_hi = flip_table_entry(n_hi_to_be_flipped, 3);
        let r1 = n & !((N_MASK_3 << s_lo) | (N_MASK_3 << s_hi));
        let r2 = r1 | (t_lo << s_hi);
        let r3 = r2 | (t_hi << s_lo);
        let k: usize = n_flip + 6;
        proof {
            assert forall|p: int| 0 <= p < 13 implies #[trigger] cell(r3, p) == if flip_source(
                k as int,
                p,
            ) >= 0 {
                cell(n, flip_source(k as int, p)) ^ 1
            } else {
                cell(n, p)
            } by {
                lemma_clear_blocks(n, a, 3, N_MASK_3, b, 3, N_MASK_3, p as u64);
                lemma_place_block(r1, t_lo, b, 3, p as u64);
                lemma_place_block(r2, t_hi, a, 3, p as u64);
                if in_block(p, a as int, 3) {
                    let j = 2 - (p - a);
                    lemma_extract_block(n, b, 3, N_MASK_3, j as u64);
                    assert(cell(t_hi, p - a) == flipped_cell(n_hi_to_be_flipped, 3, p - a));
                } else if in_block(p, b as int, 3) {
                    let j = 2 - (p - b);
                    lemma_extract_block(n, a, 3, N_MASK_3, j as u64);
                    assert(cell(t_lo, p - b) == flipped_cell(n_lo_to_be_flipped, 3, p - b));
                }
            }
        }
        self.n_cells = r3;
        proof {
            assert(self@ =~= flip_cells(old(self)@, n_flip + 6));
        }
    }

    /// Flip `n_flip`: primary flips are `0..6`, secondary flips `6..13`.
    pub fn flip(&mut self, n_flip: usize)
        requires
            n_flip < 13,
        ensures
            final(self)@ == flip_cells(old(self)@, n_flip as int),
            final(self).high() == old(self).high(),
    {
        if n_flip < 6 {
            self.primary_flip(n_flip);
        } else {
            self.secondary_flip(n_flip - 6);
        }
    }

    /// The solved ball.
    pub fn new() -> (r: SBall)
        ensures
            r@ == solved_cells(),
            r.wf(),
    {
        let r = SBall { n_cells: N_SOLVED };
        proof {
            lemma_solved_word();
            assert(r@ =~= solved_cells());
        }
        r
    }

    /// Whether every position holds colour 0.
    pub fn colors_correct(&self) -> (r: bool)
        ensures
            r == colors_in_place(self@),
    {
        let r = 0 == self.n_cells & N_COLOR_BITS;
        proof {
            lemma_color_bits(self.n_cells);
            if !r {
                let i = choose|i: int| 0 <= i < 12 && cell(self.n_cells, i) & 1 != 0;
                assert(color_of(self@[i]) != 0);
            }
        }
        r
    }

    /// Whether position `i` holds number `i + 1` for every position, whatever
    /// the colours.
    pub fn is_solved(&self) -> (r: bool)
        ensures
            r == numbers_in_place(self@),
    {
        let r = self.n_cells & N_NUMBER_BITS == N_SOLVED;
        proof {
            lemma_number_bits(self.n_cells);
            if !r {
                let i = choose|i: int| 0 <= i < 12 && cell(self.n_cells, i) >> 1 != i + 1;
                assert(number_of(self@[i]) != i + 1);
            }
        }
        r
    }
}

/// The cells of the solved word.
proof fn lemma_solved_word()
    ensures
        forall|i: int| 0 <= i < 12 ==> #[trigger] cell(N_SOLVED, i) == 2 * i + 2,
        cell(N_SOLVED, 12) == 0,
{
    let n = N_SOLVED;
    assert(cell(n, 0) == 2 && cell(n, 1) == 4 && cell(n, 2) == 6 && cell(n, 3) == 8 && cell(n, 4)
        == 10 && cell(n, 5) == 12 && cell(n, 6) == 14 && cell(n, 7) == 16 && cell(n, 8) == 18
        && cell(n, 9) == 20 && cell(n, 10) == 22 && cell(n, 11) == 24 && cell(n, 12) == 0)
        by (bit_vector)
        requires
            n == 0b11000_10110_10100_10010_10000_01110_01100_01010_01000_00110_00100_00010u64,
    ;
}

/// Masking with the colour bits gives zero exactly when every cell's colour is 0.
proof fn lemma_color_bits(n: u64)
    ensures
        (n & N_COLOR_BITS == 0) == (forall|i: int| 0 <= i < 12 ==> #[trigger] cell(n, i) & 1 == 0),
{
    let b = n & N_COLOR_BITS == 0;
    assert(b == (cell(n, 0) & 1 == 0 && cell(n, 1) & 1 == 0 && cell(n, 2) & 1 == 0 && cell(n, 3)
        & 1 == 0 && cell(n, 4) & 1 == 0 && cell(n, 5) & 1 == 0 && cell(n, 6) & 1 == 0 && cell(n, 7)
        & 1 == 0 && cell(n, 8) & 1 == 0 && cell(n, 9) & 1 == 0 && cell(n, 10) & 1 == 0 && cell(
        n,
        11,
    ) & 1 == 0)) by (bit_vector)
        requires
            b == (n & 0b00001_00001_00001_00001_00001_00001_00001_00001_00001_00001_00001_00001u64
                == 0),
    ;
    if b {
        assert forall|i: int| 0 <= i < 12 implies #[trigger] cell(n, i) & 1 == 0 by {
            assert(i == 0 || i == 1 || i == 2 || i == 3 || i == 4 || i == 5 || i == 6 || i == 7 || i
                == 8 || i == 9 || i == 10 || i == 11);
        }
    } else {
        assert(!(forall|i: int| 0 <= i < 12 ==> #[trigger] cell(n, i) & 1 == 0)) by {
            if forall|i: int| 0 <= i < 12 ==> #[trigger] cell(n, i) & 1 == 0 {
                assert(cell(n, 0) & 1 == 0 && cell(n, 1) & 1 == 0 && cell(n, 2) & 1 == 0 && cell(n, 3)
                    & 1 == 0 && cell(n, 4) & 1 == 0 && cell(n, 5) & 1 == 0 && cell(n, 6) & 1 == 0
                    && cell(n, 7) & 1 == 0 && cell(n, 8) & 1 == 0 && cell(n, 9) & 1 == 0 && cell(n, 10)
                    & 1 == 0 && cell(n, 11) & 1 == 0);
            }
        }
    }
}

/// Masking with the number bits gives the solved word exactly when position
/// `i` holds number `i + 1` for every position.
proof fn lemma_number_bits(n: u64)
    ensures
        (n & N_NUMBER_BITS == N_SOLVED) == (forall|i: int|
            0 <= i < 12 ==> #[trigger] cell(n, i) >> 1 == i + 1),
{
    let b = n & N_NUMBER_BITS == N_SOLVED;
    assert(b == (cell(n, 0) >> 1 == 1 && cell(n, 1) >> 1 == 2 && cell(n, 2) >> 1 == 3 && cell(n, 3)
        >> 1 == 4 && cell(n, 4) >> 1 == 5 && cell(n, 5) >> 1 == 6 && cell(n, 6) >> 1 == 7 && cell(n, 7)
        >> 1 == 8 && cell(n, 8) >> 1 == 9 && cell(n, 9) >> 1 == 10 && cell(n, 10) >> 1 == 11 && cell(
        n,
        11,
    ) >> 1 == 12)) by (bit_vector)
        requires
            b == (n & 0b11110_11110_11110_11110_11110_11110_11110_11110_11110_11110_11110_11110u64
                == 0b11000_10110_10100_10010_10000_01110_01100_01010_01000_00110_00100_00010u64),
    ;
    if b {
        assert forall|i: int| 0 <= i < 12 implies #[trigger] cell(n, i) >> 1 == i + 1 by {
            assert(i == 0 || i == 1 || i == 2 || i == 3 || i == 4 || i == 5 || i == 6 || i == 7 || i
                == 8 || i == 9 || i == 10 || i == 11);
        }
    } else {
        assert(!(forall|i: int| 0 <= i < 12 ==> #[trigger] cell(n, i) >> 1 == i + 1)) by {
            if forall|i: int| 0 <= i < 12 ==> #[trigger] cell(n, i) >> 1 == i + 1 {
                assert(cell(n, 0) >> 1 == 1 && cell(n, 1) >> 1 == 2 && cell(n, 2) >> 1 == 3 && cell(
                    n,
                    3,
                ) >> 1 == 4 && cell(n, 4) >> 1 == 5 && cell(n, 5) >> 1 == 6 && cell(n, 6) >> 1 == 7
                    && cell(n, 7) >> 1 == 8 && cell(n, 8) >> 1 == 9 && cell(n, 9) >> 1 == 10 && cell(
                    n,
                    10,
                ) >> 1 == 11 && cell(n, 11) >> 1 == 12);
            }
        }
    }
}

/// Whether `x` denotes the fixed number 13 (in either colour).
pub open spec fn is_marker(x: isize) -> bool {
    x == 13 || x == -13
}

/// What `SBall::new_from_vec` accepts: thirteen entries, each a nonzero
/// number from -13 to 13, at least one of them the fixed number 13.
pub open spec fn valid_entries(s: Seq<isize>) -> bool {
    &&& s.len() == 13
    &&& exists|i: int| 0 <= i < 13 && #[trigger] is_marker(s[i])
    &&& forall|i: int| 0 <= i < 13 ==> -13 <= #[trigger] s[i] <= 13 && s[i] != 0
}

/// Whether `p` is the first position of `s` that holds the fixed number 13.
pub open spec fn is_first_marker(s: Seq<isize>, p: int) -> bool {
    &&& 0 <= p < s.len()
    &&& is_marker(s[p])
    &&& forall|j: int| 0 <= j < p ==> !#[trigger] is_marker(s[j])
}

/// The first position of `s` that holds the fixed number 13.
pub open spec fn first_marker(s: Seq<isize>) -> int {
    choose|p: int| is_first_marker(s, p)
}

/// The twelve entries that follow position `p` around the ring of thirteen.
pub open spec fn ring_after(s: Seq<isize>, p: int) -> Seq<isize> {
    Seq::new(12, |j: int| s[(p + 1 + j) % 13])
}

/// The entries of `s` that are not the fixed number, in order.
pub open spec fn without_markers(s: Seq<isize>) -> Seq<isize>
    decreases s.len(),
{
    if s.len() == 0 {
        Seq::empty()
    } else if is_marker(s.last()) {
        without_markers(s.drop_last())
    } else {
        without_markers(s.drop_last()).push(s.last())
    }
}

/// The cell for an entry: the number shifted left by one, with colour 1 for a
/// negative entry.
pub open spec fn encode_entry(x: isize) -> u64 {
    if x < 0 {
        (-2 * x + 1) as u64
    } else {
        (2 * x) as u64
    }
}

/// The cells that `SBall::new_from_vec` builds from the entries `s`.
pub open spec fn cells_from_entries(s: Seq<isize>) -> Seq<u64> {
    let q = without_markers(ring_after(s, first_marker(s)));
    Seq::new(12, |i: int| if i < q.len() { encode_entry(q[i]) } else { 0 })
}

proof fn lemma_without_markers_len(s: Seq<isize>)
    ensures
        without_markers(s).len() <= s.len(),
    decreases s.len(),
{
    if s.len() > 0 {
        lemma_without_markers_len(s.drop_last());
    }
}

impl SBall {
    /// Builds a ball from the thirteen entries read around the ring, and
    /// returns it with the offset of the entry after the fixed number 13.
    ///
    /// Positive entries have colour 0, negative ones colour 1.  Position 0 of
    /// the ball holds the entry that follows the first 13, and so on around
    /// the ring.
    pub fn new_from_vec(slcn: &[isize]) -> (r: (SBall, isize))
        requires
            valid_entries(slcn@),
        ensures
            r.0@ == cells_from_entries(slcn@),
            r.0.wf(),
            r.1 == first_marker(slcn@) + 1,
    {
        // Find the first 13.
        let mut p: usize = 0;
        while p < 13 && !(slcn[p] == 13 || slcn[p] == -13)
            invariant
                valid_entries(slcn@),
                p <= 13,
                forall|j: int| 0 <= j < p ==> !#[trigger] is_marker(slcn@[j]),
            decreases 13 - p,
        {
            p = p + 1;
        }
        proof {
            if p == 13 {
                let i = choose|i: int| 0 <= i < 13 && #[trigger] is_marker(slcn@[i]);
                assert(!is_marker(slcn@[i]));
            }
            assert(is_first_marker(slcn@, p as int));
            let q = first_marker(slcn@);
            assert(is_first_marker(slcn@, q));
            if q < p {
                assert(!is_marker(slcn@[q]));
            }
            if p < q {
                assert(!is_marker(slcn@[p as int]));
            }
        }
        let ghost ring = ring_after(slcn@, p as int);
        let mut n_cells: u64 = 0;
        let mut i: usize = 0;
        proof {
            assert(forall|s: u64| (0u64 >> s) & 31u64 == 0) by (bit_vector);
            assert forall|c: int| 0 <= c < 13 implies #[trigger] cell(n_cells, c) == 0 by {
                assert((0u64 >> ((5 * c) as u64)) & 31u64 == 0);
            }
            assert(ring.take(0) =~= Seq::<isize>::empty());
        }
        for j in 0..12
            invariant
                valid_entries(slcn@),
                p < 13,
                ring == ring_after(slcn@, p as int),
                i == without_markers(ring.take(j as int)).len(),
                i <= j,
                forall|c: int|
                    0 <= c < 13 ==> #[trigger] cell(n_cells, c) == if c < i {
                        encode_entry(without_markers(ring.take(j as int))[c])
                    } else {
                        0
                    },
        {
            let n = slcn[(p + 1 + j) % 13];
            proof {
                lemma_without_markers_len(ring.take(j as int));
                assert(ring.take(j as int + 1).drop_last() =~= ring.take(j as int));
                assert(ring.take(j as int + 1).last() == n);
            }
            if !(n == 13 || n == -13) {
                let u: u64 = if n < 0 {
                    ((-n) as u64) * 2 + 1
                } else {
                    (n as u64) * 2
                };
                n_cells = crate::cells::set_cell_from_0(n_cells, i, u);
                i = i + 1;
            }
        }
        proof {
            assert(ring.take(12) =~= ring);
        }
        let ball = SBall { n_cells };
        proof {
            assert(ball@ =~= cells_from_entries(slcn@));
        }
        (ball, p as isize + 1)
    }
}

/// Where flip `k` moves a cell, it takes it from a position on the ball, and
/// doing the flip twice brings every cell back: the source of the source of
/// a moved position is that position.
pub proof fn lemma_flip_source(k: int, p: int)
    requires
        0 <= k < 13,
        0 <= p < 12,
    ensures
        flip_source(k, p) >= 0 ==> 0 <= flip_source(k, p) < 12 && flip_source(k, flip_source(k, p))
            == p,
        flip_source(k, p) < 0 ==> flip_source(k, p) == -1,
{
}

/// Flipping twice by the same flip gives back the cells one started with.
pub proof fn lemma_flip_involution(s: Seq<u64>, k: int)
    requires
        s.len() == 12,
        0 <= k < 13,
    ensures
        flip_cells(flip_cells(s, k), k) == s,
{
    assert forall|p: int| 0 <= p < 12 implies #[trigger] flip_cells(flip_cells(s, k), k)[p] == s[p] by {
        lemma_flip_source(k, p);
        if flip_source(k, p) >= 0 {
            lemma_toggle(s[p]);
        }
    }
    assert(flip_cells(flip_cells(s, k), k) =~= s);
}

/// Two balls with the same cells and the same high bits are the same ball.
pub proof fn lemma_ball_determined(a: SBall, b: SBall)
    requires
        a@ == b@,
        a.high() == b.high(),
    ensures
        a == b,
{
    assert forall|j: int| 0 <= j < 13 implies #[trigger] cell(a.n_cells, j) == cell(b.n_cells, j) by {
        if j < 12 {
            assert(a@[j] == cell(a.n_cells, j));
            assert(b@[j] == cell(b.n_cells, j));
        }
    }
    lemma_cells_determine(a.n_cells, b.n_cells);
}

/// Flipping a ball twice by the same flip gives back the very same ball.
pub proof fn lemma_flip_twice(before: SBall, after_one: SBall, after_two: SBall, k: int)
    requires
        0 <= k < 13,
        after_one@ == flip_cells(before@, k),
        after_one.high() == before.high(),
        after_two@ == flip_cells(after_one@, k),
        after_two.high() == after_one.high(),
    ensures
        after_two == before,
{
    lemma_flip_involution(before@, k);
    lemma_ball_determined(after_two, before);
}

/// The number of cells with colour 1.
pub open spec fn color_count(s: Seq<u64>) -> int {
    color_of(s[0]) + color_of(s[1]) + color_of(s[2]) + color_of(s[3]) + color_of(s[4]) + color_of(
        s[5],
    ) + color_of(s[6]) + color_of(s[7]) + color_of(s[8]) + color_of(s[9]) + color_of(s[10])
        + color_of(s[11])
}

/// The colour at position `p` after flip `k`.
spec fn moved_color(s: Seq<u64>, k: int, p: int) -> int {
    if flip_source(k, p) >= 0 {
        1 - color_of(s[flip_source(k, p)])
    } else {
        color_of(s[p]) as int
    }
}

/// A primary flip (0 to 5) turns seven cells over and so changes whether the
/// number of cells with colour 1 is even; a secondary flip (6 to 12) turns six
/// and keeps it.
pub proof fn lemma_flip_color_parity(s: Seq<u64>, k: int)
    requires
        s.len() == 12,
        0 <= k < 13,
    ensures
        k < 6 ==> color_count(flip_cells(s, k)) % 2 != color_count(s) % 2,
        k >= 6 ==> color_count(flip_cells(s, k)) % 2 == color_count(s) % 2,
{
    assert(forall|x: u64| #[trigger] ((x ^ 1) & 1) == 1 - (x & 1) && (x & 1) <= 1) by (bit_vector);
    let t = flip_cells(s, k);
    assert forall|p: int| 0 <= p < 12 implies #[trigger] color_of(t[p]) == moved_color(s, k, p) by {
        lemma_flip_source(k, p);
        if flip_source(k, p) >= 0 {
            assert(((s[flip_source(k, p)] ^ 1) & 1) == 1 - (s[flip_source(k, p)] & 1));
        }
    }
    assert(color_of(t[0]) == moved_color(s, k, 0));
    assert(color_of(t[1]) == moved_color(s, k, 1));
    assert(color_of(t[2]) == moved_color(s, k, 2));
    assert(color_of(t[3]) == moved_color(s, k, 3));
    assert(color_of(t[4]) == moved_color(s, k, 4));
    assert(color_of(t[5]) == moved_color(s, k, 5));
    assert(color_of(t[6]) == moved_color(s, k, 6));
    assert(color_of(t[7]) == moved_color(s, k, 7));
    assert(color_of(t[8]) == moved_color(s, k, 8));
    assert(color_of(t[9]) == moved_color(s, k, 9));
    assert(color_of(t[10]) == moved_color(s, k, 10));
    assert(color_of(t[11]) == moved_color(s, k, 11));
    if k == 0 {
    } else if k == 1 {
    } else if k == 2 {
    } else if k == 3 {
    } else if k == 4 {
    } else if k == 5 {
    } else if k == 6 {
    } else if k == 7 {
    } else if k == 8 {
    } else if k == 9 {
    } else if k == 10 {
    } else if k == 11 {
    } else {
    }
}

/// Whether `s` holds the fixed number 13 at position `p` and nowhere else.
pub open spec fn single_marker(s: Seq<isize>, p: int) -> bool {
    &&& 0 <= p < s.len()
    &&& is_marker(s[p])
    &&& forall|j: int| 0 <= j < s.len() && j != p ==> !#[trigger] is_marker(s[j])
}

/// The entries read around the ring from position `r` on.
pub open spec fn rotated(s: Seq<isize>, r: int) -> Seq<isize> {
    Seq::new(13, |j: int| s[(j + r) % 13])
}

/// A sequence without the fixed number keeps all its entries.
pub proof fn lemma_without_markers_none(q: Seq<isize>)
    requires
        forall|i: int| 0 <= i < q.len() ==> !#[trigger] is_marker(q[i]),
    ensures
        without_markers(q) == q,
    decreases q.len(),
{
    if q.len() > 0 {
        let g = q.drop_last();
        assert forall|i: int| 0 <= i < g.len() implies !#[trigger] is_marker(g[i]) by {
            assert(g[i] == q[i]);
        }
        lemma_without_markers_none(g);
        assert(!is_marker(q[q.len() - 1]));
        assert(g.push(q.last()) =~= q);
    }
}

/// Index arithmetic around the ring of thirteen.
proof fn lemma_ring_arith(p: int, r: int, j: int)
    requires
        0 <= p < 13,
        0 <= r < 13,
        0 <= j < 12,
    ensures
        0 <= (p - r) % 13 < 13,
        (((p - r) % 13 + 1 + j) % 13 + r) % 13 == (p + 1 + j) % 13,
        (p + 1 + j) % 13 != p,
        0 <= (p + 1 + j) % 13 < 13,
{
    let p2 = if p >= r { p - r } else { p - r + 13 };
    assert((p - r) % 13 == p2);
    let i1 = if p2 + 1 + j < 13 { p2 + 1 + j } else { p2 + 1 + j - 13 };
    assert((p2 + 1 + j) % 13 == i1);
    let i2 = if p + 1 + j < 13 { p + 1 + j } else { p + 1 + j - 13 };
    assert((p + 1 + j) % 13 == i2);
    let i3 = if i1 + r < 13 { i1 + r } else { i1 + r - 13 };
    assert((i1 + r) % 13 == i3);
}

/// With a single 13, the first 13 is that one.
proof fn lemma_single_marker_first(s: Seq<isize>, p: int)
    requires
        s.len() == 13,
        single_marker(s, p),
    ensures
        first_marker(s) == p,
        without_markers(ring_after(s, p)) == ring_after(s, p),
{
    assert(is_first_marker(s, p));
    let q = first_marker(s);
    assert(is_first_marker(s, q));
    assert forall|j: int| 0 <= j < 12 implies !#[trigger] is_marker(ring_after(s, p)[j]) by {
        lemma_ring_arith(p, 0, j);
        assert(ring_after(s, p)[j] == s[(p + 1 + j) % 13]);
    }
    lemma_without_markers_none(ring_after(s, p));
}

/// Where the entries hold a single 13, reading them around the ring from
/// another position gives the same ball, and only moves the position of the
/// 13 back by as many places; and the colour the 13 is written in does not
/// matter.
pub proof fn lemma_entries_rotation(s: Seq<isize>, p: int, r: int)
    requires
        valid_entries(s),
        single_marker(s, p),
        0 <= r < 13,
    ensures
        valid_entries(rotated(s, r)),
        cells_from_entries(rotated(s, r)) == cells_from_entries(s),
        first_marker(rotated(s, r)) == (first_marker(s) - r) % 13,
        valid_entries(s.update(p, (-s[p]) as isize)),
        cells_from_entries(s.update(p, (-s[p]) as isize)) == cells_from_entries(s),
        first_marker(s.update(p, (-s[p]) as isize)) == first_marker(s),
{
    let s2 = rotated(s, r);
    let p2 = (p - r) % 13;
    lemma_ring_arith(p, r, 0);
    assert(p2 == if p >= r { p - r } else { p - r + 13 });
    assert((p2 + r) % 13 == p);
    assert(s2[p2] == s[p]);
    assert forall|j: int| 0 <= j < 13 && j != p2 implies !#[trigger] is_marker(s2[j]) by {
        let i = if j + r < 13 { j + r } else { j + r - 13 };
        assert((j + r) % 13 == i);
        assert(s2[j] == s[i]);
    }
    assert forall|j: int| 0 <= j < 13 implies -13 <= #[trigger] s2[j] <= 13 && s2[j] != 0 by {
        let i = if j + r < 13 { j + r } else { j + r - 13 };
        assert((j + r) % 13 == i);
        assert(s2[j] == s[i]);
    }
    assert(single_marker(s2, p2));
    lemma_single_marker_first(s, p);
    lemma_single_marker_first(s2, p2);
    assert(ring_after(s2, p2) =~= ring_after(s, p)) by {
        assert forall|j: int| 0 <= j < 12 implies ring_after(s2, p2)[j] == ring_after(s, p)[j] by {
            lemma_ring_arith(p, r, j);
            lemma_ring_arith(p2, 0, j);
        }
    }
    let s3 = s.update(p, (-s[p]) as isize);
    assert forall|j: int| 0 <= j < 13 && j != p implies !#[trigger] is_marker(s3[j]) by {
        assert(s3[j] == s[j]);
    }
    assert forall|j: int| 0 <= j < 13 implies -13 <= #[trigger] s3[j] <= 13 && s3[j] != 0 by {
        if j != p {
            assert(s3[j] == s[j]);
        }
    }
    assert(single_marker(s3, p));
    lemma_single_marker_first(s3, p);
    assert(ring_after(s3, p) =~= ring_after(s, p)) by {
        assert forall|j: int| 0 <= j < 12 implies ring_after(s3, p)[j] == ring_after(s, p)[j] by {
            lemma_ring_arith(p, 0, j);
        }
    }
}

} // verus!
