use brainball_solver::ball::{SBall, N_SOLVED};
use brainball_solver::cells::{extract_cell, flip_table_entry, set_cell_from_0};

fn cells_of(n: u64) -> Vec<u64> {
    (0..12).map(|i| (n >> (5 * i)) & 31).collect()
}

fn word_of(cells: &[u64]) -> u64 {
    let mut n = 0u64;
    for (i, c) in cells.iter().enumerate() {
        n |= c << (5 * i);
    }
    n
}

fn numbers_of(n: u64) -> Vec<u64> {
    let mut v: Vec<u64> = cells_of(n).iter().map(|c| c >> 1).collect();
    v.sort();
    v
}

#[test]
fn extract_cell_reads_each_cell() {
    let n = word_of(&[1, 2, 3, 4, 5, 6, 7, 8, 9, 10, 11, 31]);
    for i in 0..12 {
        let expected = if i == 11 { 31 } else { i as u64 + 1 };
        assert_eq!(extract_cell(n, i), expected);
    }
    assert_eq!(extract_cell(n | (0b1011u64 << 60), 12), 0b1011);
}

#[test]
fn set_cell_from_0_writes_one_cell() {
    let n = word_of(&[3, 0, 5]);
    let r = set_cell_from_0(n, 1, 17);
    assert_eq!(cells_of(r)[..3], [3, 17, 5]);
    assert_eq!(r, n | (17 << 5));
    // the top cell has four bits
    let r = set_cell_from_0(0, 12, 0b10110);
    assert_eq!(r >> 60, 0b0110);
}

#[test]
fn flip_table_entry_reverses_and_toggles() {
    // cells (2, 4, 7, 9) become (8, 6, 5, 3)
    let n = word_of(&[2, 4, 7, 9]);
    assert_eq!(flip_table_entry(n, 4), word_of(&[8, 6, 5, 3]));
    // only the lowest cells take part
    let n = word_of(&[2, 4, 7, 9]);
    assert_eq!(flip_table_entry(n, 3), word_of(&[6, 5, 3]));
    assert_eq!(flip_table_entry(n, 0), 0);
    // an all-zero block becomes all colour bits
    assert_eq!(flip_table_entry(0, 4), word_of(&[1, 1, 1, 1]));
    // all thirteen cells: the top cell keeps four bits
    let r = flip_table_entry(word_of(&[2]), 13);
    assert_eq!(cells_of(r), vec![1; 12]);
    assert_eq!(r >> 60, 3);
}

#[test]
fn new_is_solved_with_correct_colors() {
    let b = SBall::new();
    assert_eq!(b.n_cells, N_SOLVED);
    assert_eq!(cells_of(b.n_cells), vec![2, 4, 6, 8, 10, 12, 14, 16, 18, 20, 22, 24]);
    assert!(b.is_solved());
    assert!(b.colors_correct());
}

#[test]
fn is_solved_ignores_colors() {
    let b = SBall { n_cells: N_SOLVED | 1 | (1 << 55) };
    assert!(b.is_solved());
    assert!(!b.colors_correct());
    let c = SBall { n_cells: word_of(&[4, 2, 6, 8, 10, 12, 14, 16, 18, 20, 22, 24]) };
    assert!(!c.is_solved());
    assert!(c.colors_correct());
}

#[test]
fn new_from_vec_example_from_help() {
    let input: Vec<isize> = vec![1, 2, -3, 4, 5, -6, -7, -8, 9, 10, -11, -12, 13];
    let (ball, offset) = SBall::new_from_vec(&input);
    assert_eq!(offset, 13);
    assert_eq!(cells_of(ball.n_cells), vec![2, 4, 7, 8, 10, 13, 15, 17, 18, 20, 23, 25]);
    assert_eq!(ball.n_cells >> 60, 0);
}

#[test]
fn new_from_vec_starts_after_the_13() {
    let input: Vec<isize> = vec![5, -13, 7, 1, 2, 3, 4, 6, 8, 9, 10, 11, -12];
    let (ball, offset) = SBall::new_from_vec(&input);
    assert_eq!(offset, 2);
    assert_eq!(cells_of(ball.n_cells), vec![14, 2, 4, 6, 8, 12, 16, 18, 20, 22, 25, 10]);
}

#[test]
fn new_from_vec_with_a_second_13_leaves_a_cell_empty() {
    let input: Vec<isize> = vec![1, 2, 3, 13, 4, 5, 6, 7, 8, 9, 10, 11, -13];
    let (ball, offset) = SBall::new_from_vec(&input);
    assert_eq!(offset, 4);
    assert_eq!(cells_of(ball.n_cells), vec![8, 10, 12, 14, 16, 18, 20, 22, 2, 4, 6, 0]);
}

#[test]
fn primary_flip_zero_on_solved_ball() {
    let mut b = SBall::new();
    b.primary_flip(0);
    assert_eq!(cells_of(b.n_cells), vec![9, 7, 5, 3, 10, 12, 14, 21, 19, 17, 22, 24]);
}

#[test]
fn primary_flip_five_on_solved_ball() {
    // four cells from 8, three cells from 2
    let mut b = SBall::new();
    b.primary_flip(5);
    assert_eq!(cells_of(b.n_cells), vec![2, 4, 11, 9, 7, 12, 14, 16, 25, 23, 21, 19]);
}

#[test]
fn secondary_flip_zero_on_solved_ball() {
    let mut b = SBall::new();
    b.secondary_flip(0);
    assert_eq!(cells_of(b.n_cells), vec![21, 19, 17, 8, 10, 12, 14, 7, 5, 3, 22, 24]);
}

#[test]
fn secondary_flip_six_on_solved_ball() {
    // lower block from 9, upper block from 3
    let mut b = SBall::new();
    b.secondary_flip(6);
    assert_eq!(cells_of(b.n_cells), vec![2, 4, 6, 25, 23, 21, 14, 16, 18, 13, 11, 9]);
}

#[test]
fn flip_dispatches_to_primary_and_secondary() {
    for k in 0..13 {
        let mut a = SBall::new();
        a.flip(k);
        let mut b = SBall::new();
        if k < 6 {
            b.primary_flip(k);
        } else {
            b.secondary_flip(k - 6);
        }
        assert_eq!(a, b);
    }
}

#[test]
fn every_flip_twice_is_the_identity() {
    let (start, _) = SBall::new_from_vec(&[3, -1, 13, 12, -5, 7, 2, -9, 4, 6, -8, 10, 11]);
    for k in 0..13 {
        let mut b = start;
        b.flip(k);
        assert_ne!(b, start);
        b.flip(k);
        assert_eq!(b, start);
    }
}

#[test]
fn flips_keep_the_numbers() {
    let mut b = SBall::new();
    for &k in &[3usize, 7, 12, 0, 9, 4, 6, 11] {
        b.flip(k);
        assert_eq!(numbers_of(b.n_cells), (1..=12).collect::<Vec<u64>>());
        assert_eq!(b.n_cells >> 60, 0);
    }
}

#[test]
fn flips_keep_the_high_bits() {
    let mut b = SBall { n_cells: N_SOLVED | (0b1010u64 << 60) };
    for k in 0..13 {
        b.flip(k);
        assert_eq!(b.n_cells >> 60, 0b1010);
    }
}

#[test]
fn primary_flips_change_colour_parity_and_secondary_do_not() {
    let (start, _) = SBall::new_from_vec(&[3, -1, 13, 12, -5, 7, 2, -9, 4, 6, -8, 10, 11]);
    let ones = |n: u64| cells_of(n).iter().filter(|c| *c & 1 == 1).count();
    for k in 0..13 {
        let mut b = start;
        b.flip(k);
        let changed = ones(b.n_cells) % 2 != ones(start.n_cells) % 2;
        assert_eq!(changed, k < 6, "flip {}", k);
    }
}

#[test]
fn rotating_the_entries_moves_only_the_offset() {
    let s: Vec<isize> = vec![3, -1, 13, 12, -5, 7, 2, -9, 4, 6, -8, 10, 11];
    let (ball, offset) = SBall::new_from_vec(&s);
    for r in 0..13usize {
        let s2: Vec<isize> = (0..13).map(|j| s[(j + r) % 13]).collect();
        let (ball2, offset2) = SBall::new_from_vec(&s2);
        assert_eq!(ball2, ball);
        assert_eq!(offset2 - 1, (offset - 1 - r as isize).rem_euclid(13));
    }
    let mut s3 = s.clone();
    s3[2] = -13;
    assert_eq!(SBall::new_from_vec(&s3), (ball, offset));
}
