//! Five-bit cells packed into a `u64`.
//!
//! Cell `i` of a word `n` occupies bits `5 * i .. 5 * i + 5`.  Cells `0..12`
//! hold the twelve movable numbers of the ball; the thirteenth "cell" holds
//! the four highest bits of the word, which a well-formed ball keeps at zero.
use vstd::prelude::*;

verus! {

/// Number of bits of one cell.
pub const N_BITS_PER_CELL: u64 = 5;

/// Mask of the bits of one cell, at the lowest position.
pub const N_CELL_MASK: u64 = 0b11111u64;

/// Cell `i` of the word `n`: bits `5 * i .. 5 * i + 5`.
pub open spec fn cell(n: u64, i: int) -> u64 {
    (n >> ((5 * i) as u64)) & 31u64
}

/// Every cell is below 32.
pub proof fn lemma_cell_small(n: u64, i: int)
    ensures
        cell(n, i) < 32,
{
    let s = (5 * i) as u64;
    assert((n >> s) & 31u64 < 32) by (bit_vector);
}

/// Extracting a cell by masking and shifting reads exactly that cell.
proof fn lemma_extract(n: u64, i: u64, s: u64)
    requires
        i < 13,
        s == i * 5,
    ensures
        (n & (31u64 << s)) >> s == cell(n, i as int),
{
    assert((n & (31u64 << s)) >> s == cell(n, i as int)) by (bit_vector)
        requires
            i < 13,
            s == i * 5,
    ;
}

/// Reads cell `i_cell` of `n_numbers`.
pub fn extract_cell(n_numbers: u64, i_cell: usize) -> (r: u64)
    requires
        i_cell < 13,
    ensures
        r == cell(n_numbers, i_cell as int),
        r < 32,
{
    let n_bits: u64 = (i_cell as u64) * N_BITS_PER_CELL;
    proof {
        lemma_extract(n_numbers, i_cell as u64, n_bits);
        lemma_cell_small(n_numbers, i_cell as int);
    }
    (n_numbers & (N_CELL_MASK << n_bits)) >> n_bits
}

/// What fits of `c` in cell `i`: all five bits, or the four of the top cell.
pub open spec fn cell_fit(c: u64, i: int) -> u64 {
    if i == 12 {
        c & 15
    } else {
        c
    }
}

/// Writing `c` into a cell that is zero sets that cell to `c` (as far as it
/// fits) and leaves every other cell as it was.
proof fn lemma_set_cell(n: u64, i: u64, c: u64, j: u64, s: u64)
    requires
        i < 13,
        j < 13,
        c < 32,
        s == i * 5,
        cell(n, i as int) == 0,
    ensures
        cell(n | (c << s), j as int) == if j == i {
            cell_fit(c, i as int)
        } else {
            cell(n, j as int)
        },
{
    assert(cell(n | (c << s), j as int) == if j == i {
        if i == 12 {
            c & 15
        } else {
            c
        }
    } else {
        cell(n, j as int)
    }) by (bit_vector)
        requires
            i < 13,
            j < 13,
            c < 32,
            s == i * 5,
            cell(n, i as int) == 0,
    ;
}

/// Writing a cell below `w` keeps the cells from `w` on at zero.
proof fn lemma_set_cell_bound(n: u64, i: u64, c: u64, w: u64, s: u64)
    requires
        i < w,
        w <= 12,
        c < 32,
        s == i * 5,
        n >> (w * 5) == 0,
    ensures
        (n | (c << s)) >> (w * 5) == 0,
{
    assert((n | (c << s)) >> (w * 5) == 0) by (bit_vector)
        requires
            i < w,
            w <= 12,
            c < 32,
            s == i * 5,
            n >> (w * 5) == 0,
    ;
}

/// Writes `n_cell` into cell `i_cell` of `n_numbers`, which must still be zero.
pub fn set_cell_from_0(n_numbers: u64, i_cell: usize, n_cell: u64) -> (r: u64)
    requires
        i_cell < 13,
        cell(n_numbers, i_cell as int) == 0,
    ensures
        r == n_numbers | (n_cell << ((i_cell as u64) * 5)),
        n_cell < 32 ==> forall|j: int|
            0 <= j < 13 ==> #[trigger] cell(r, j) == if j == i_cell {
                cell_fit(n_cell, i_cell as int)
            } else {
                cell(n_numbers, j)
            },
{
    let s: u64 = (i_cell as u64) * N_BITS_PER_CELL;
    let r = n_numbers | (n_cell << s);
    proof {
        if n_cell < 32 {
            assert forall|j: int| 0 <= j < 13 implies #[trigger] cell(r, j) == if j == i_cell {
                cell_fit(n_cell, i_cell as int)
            } else {
                cell(n_numbers, j)
            } by {
                lemma_set_cell(n_numbers, i_cell as u64, n_cell, j as u64, s);
            }
        }
    }
    r
}

/// Toggling the lowest bit keeps a cell value below 32, and toggling twice
/// gives the value back.
pub proof fn lemma_toggle(x: u64)
    ensures
        x < 32 ==> x ^ 1 < 32,
        (x ^ 1) ^ 1 == x,
        (x ^ 1) >> 1 == x >> 1,
        (x ^ 1) & 1 != x & 1,
{
    assert((x < 32 ==> x ^ 1 < 32) && (x ^ 1) ^ 1 == x && (x ^ 1) >> 1 == x >> 1 && (x ^ 1) & 1
        != x & 1) by (bit_vector);
}

/// Cell `j` of the block that `flip_table_entry(n, count)` builds: the first
/// `count` cells of `n` in reverse order, each with its colour bit toggled
/// (as far as it fits in cell `j`), and zero above them.
pub open spec fn flipped_cell(n: u64, count: int, j: int) -> u64 {
    if j < count {
        cell_fit(cell(n, count - 1 - j) ^ 1, j)
    } else {
        0
    }
}

/// Reverses the order of the lowest `n_count` cells of `n_numbers` and toggles
/// the colour bit of each of them.
pub fn flip_table_entry(n_numbers: u64, n_count: usize) -> (r: u64)
    requires
        n_count <= 13,
    ensures
        forall|j: int| 0 <= j < 13 ==> #[trigger] cell(r, j) == flipped_cell(n_numbers, n_count as int, j),
        n_count <= 12 ==> r >> ((n_count as u64) * 5) == 0,
{
    let mut n_flipped = 0u64;
    proof {
        let w = n_count as u64;
        assert(forall|s: u64| (0u64 >> s) & 31u64 == 0 && 0u64 >> s == 0) by (bit_vector);
        if n_count <= 12 {
            assert(0u64 >> (w * 5) as u64 == 0);
        }
        assert forall|j: int| 0 <= j < 13 implies #[trigger] cell(n_flipped, j) == 0 by {
            assert((0u64 >> ((5 * j) as u64)) & 31u64 == 0);
        }
    }
    for i_source in 0..n_count
        invariant
            n_count <= 13,
            forall|j: int|
                0 <= j < 13 ==> #[trigger] cell(n_flipped, j) == if n_count - i_source <= j < n_count {
                    flipped_cell(n_numbers, n_count as int, j)
                } else {
                    0
                },
            n_count <= 12 ==> n_flipped >> ((n_count as u64) * 5) == 0,
    {
        let i_dest = n_count - 1 - i_source;
        let n_source = extract_cell(n_numbers, i_source) ^ 1;
        proof {
            lemma_toggle(cell(n_numbers, i_source as int));
            if n_count <= 12 {
                lemma_set_cell_bound(
                    n_flipped,
                    i_dest as u64,
                    n_source,
                    n_count as u64,
                    ((i_dest as u64) * 5) as u64,
                );
            }
        }
        n_flipped = set_cell_from_0(n_flipped, i_dest, n_source);
    }
    n_flipped
}

/// Mask of a block of four cells, at the lowest position.
pub const N_MASK_4: u64 = 0b11111_11111_11111_11111;

/// Mask of a block of three cells, at the lowest position.
pub const N_MASK_3: u64 = 0b11111_11111_11111;

/// The mask of a block of `w` cells, for the two block widths in use.
pub open spec fn block_mask(w: u64, m: u64) -> bool {
    (w == 3 && m == N_MASK_3) || (w == 4 && m == N_MASK_4)
}

/// Taking the block of `w` cells that starts at cell `a` down to the lowest
/// position keeps the order of its cells.
pub proof fn lemma_extract_block(n: u64, a: u64, w: u64, m: u64, j: u64)
    requires
        block_mask(w, m),
        a + w <= 12,
        j < w,
    ensures
        cell((n & (m << (a * 5) as u64)) >> (a * 5) as u64, j as int) == cell(n, a + j),
{
    let s = (a * 5) as u64;
    let k = (a + j) as u64;
    assert(cell((n & (m << s)) >> s, j as int) == cell(n, k as int)) by (bit_vector)
        requires
            (w == 3 && m == 0b11111_11111_11111u64) || (w == 4 && m == 0b11111_11111_11111_11111u64),
            a + w <= 12,
            j < w,
            s == a * 5,
            k == a + j,
    ;
}

/// Whether cell `p` lies in the block of `w` cells that starts at cell `a`.
pub open spec fn in_block(p: int, a: int, w: int) -> bool {
    a <= p < a + w
}

/// Clearing two blocks of cells zeroes exactly the cells of those blocks.
pub proof fn lemma_clear_blocks(n: u64, a: u64, w: u64, m: u64, b: u64, v: u64, q: u64, p: u64)
    requires
        block_mask(w, m),
        block_mask(v, q),
        a + w <= 12,
        b + v <= 12,
        p < 13,
    ensures
        cell(n & !((m << (a * 5) as u64) | (q << (b * 5) as u64)), p as int) == if in_block(
            p as int,
            a as int,
            w as int,
        ) || in_block(p as int, b as int, v as int) {
            0
        } else {
            cell(n, p as int)
        },
{
    let s = (a * 5) as u64;
    let t = (b * 5) as u64;
    let r = cell(n & !((m << s) | (q << t)), p as int);
    assert(r == if (a <= p && p < a + w) || (b <= p && p < b + v) {
        0
    } else {
        cell(n, p as int)
    }) by (bit_vector)
        requires
            (w == 3 && m == 0b11111_11111_11111u64) || (w == 4 && m == 0b11111_11111_11111_11111u64),
            (v == 3 && q == 0b11111_11111_11111u64) || (v == 4 && q == 0b11111_11111_11111_11111u64),
            a + w <= 12,
            b + v <= 12,
            p < 13,
            s == a * 5,
            t == b * 5,
            r == cell(n & !((m << s) | (q << t)), p as int),
    ;
}

/// Placing a block of `w` cells at cell `a` into a word whose cells there are
/// zero writes the block's cells there and leaves the other cells as they were.
pub proof fn lemma_place_block(x: u64, t: u64, a: u64, w: u64, p: u64)
    requires
        w <= 4,
        a + w <= 12,
        p < 13,
        t >> (w * 5) as u64 == 0,
        in_block(p as int, a as int, w as int) ==> cell(x, p as int) == 0,
    ensures
        cell(x | (t << (a * 5) as u64), p as int) == if in_block(p as int, a as int, w as int) {
            cell(t, p - a)
        } else {
            cell(x, p as int)
        },
{
    let s = (a * 5) as u64;
    let sw = (w * 5) as u64;
    let r = cell(x | (t << s), p as int);
    if a <= p && p < a + w {
        let d = (p - a) as u64;
        assert(r == cell(t, d as int)) by (bit_vector)
            requires
                w <= 4,
                a + w <= 12,
                p < 13,
                a <= p,
                p < a + w,
                d == p - a,
                s == a * 5,
                sw == w * 5,
                t >> sw == 0,
                cell(x, p as int) == 0,
                r == cell(x | (t << s), p as int),
        ;
    } else {
        assert(r == cell(x, p as int)) by (bit_vector)
            requires
                w <= 4,
                a + w <= 12,
                p < 13,
                !(a <= p && p < a + w),
                s == a * 5,
                sw == w * 5,
                t >> sw == 0,
                r == cell(x | (t << s), p as int),
        ;
    }
}

/// Thirteen cells determine the word.
pub proof fn lemma_cells_determine(x: u64, y: u64)
    requires
        forall|j: int| 0 <= j < 13 ==> #[trigger] cell(x, j) == cell(y, j),
    ensures
        x == y,
{
    assert(cell(x, 0) == cell(y, 0));
    assert(cell(x, 1) == cell(y, 1));
    assert(cell(x, 2) == cell(y, 2));
    assert(cell(x, 3) == cell(y, 3));
    assert(cell(x, 4) == cell(y, 4));
    assert(cell(x, 5) == cell(y, 5));
    assert(cell(x, 6) == cell(y, 6));
    assert(cell(x, 7) == cell(y, 7));
    assert(cell(x, 8) == cell(y, 8));
    assert(cell(x, 9) == cell(y, 9));
    assert(cell(x, 10) == cell(y, 10));
    assert(cell(x, 11) == cell(y, 11));
    assert(cell(x, 12) == cell(y, 12));
    assert(x == y) by (bit_vector)
        requires
            cell(x, 0) == cell(y, 0),
            cell(x, 1) == cell(y, 1),
            cell(x, 2) == cell(y, 2),
            cell(x, 3) == cell(y, 3),
            cell(x, 4) == cell(y, 4),
            cell(x, 5) == cell(y, 5),
            cell(x, 6) == cell(y, 6),
            cell(x, 7) == cell(y, 7),
            cell(x, 8) == cell(y, 8),
            cell(x, 9) == cell(y, 9),
            cell(x, 10) == cell(y, 10),
            cell(x, 11) == cell(y, 11),
            cell(x, 12) == cell(y, 12),
    ;
}

} // verus!
