use brainball_solver::ball::{SBall, N_SOLVED};
use brainball_solver::solver::{
    compress_solution_with_depth, compress_with_paths, position_of_number, solve_with_depths, ColorFinder,
    DepthRecorder, MeetFinder, PathFinder, SegmentCollector,
};

fn scrambled(flips: &[usize]) -> SBall {
    let mut b = SBall::new();
    b.play_flips(flips);
    b
}

fn played(ball: &SBall, flips: &[usize]) -> SBall {
    let mut b = *ball;
    b.play_flips(flips);
    b
}

#[test]
fn play_flips_then_reverse_undoes() {
    let start = scrambled(&[1, 8, 3]);
    let flips = vec![4usize, 11, 0, 6, 2];
    let mut b = played(&start, &flips);
    assert_ne!(b, start);
    let rev: Vec<usize> = flips.iter().cloned().rev().collect();
    b.play_flips(&rev);
    assert_eq!(b, start);
}

#[test]
fn same_effect_on_solved_means_same_effect_everywhere() {
    // Both sequences lead from the solved ball to the solved ball.
    let f = vec![3usize, 3];
    let g: Vec<usize> = vec![];
    assert_eq!(played(&SBall::new(), &f), played(&SBall::new(), &g));
    let other = scrambled(&[5, 9, 1]);
    assert_eq!(played(&other, &f), played(&other, &g));
}

#[test]
fn depth_recorder_counts_balls_within_one_flip() {
    let solved = SBall::new();
    let mut rec = DepthRecorder::new(&solved, 1);
    solved.find_solution(1, &mut rec);
    assert_eq!(rec.table.len(), 14);
    assert_eq!(rec.table.get(&N_SOLVED), Some(&0));
    for k in 0..13 {
        let b = scrambled(&[k]);
        assert_eq!(rec.table.get(&b.n_cells), Some(&1));
    }
}

#[test]
fn depth_recorder_keeps_fewest_flips() {
    let solved = SBall::new();
    let mut rec = DepthRecorder::new(&solved, 2);
    solved.find_solution(2, &mut rec);
    let mut distinct = std::collections::HashSet::new();
    distinct.insert(N_SOLVED);
    for a in 0..13 {
        distinct.insert(scrambled(&[a]).n_cells);
        for b in 0..13 {
            if a != b {
                distinct.insert(scrambled(&[a, b]).n_cells);
            }
        }
    }
    assert_eq!(rec.table.len(), distinct.len());
    assert_eq!(rec.table.get(&scrambled(&[4]).n_cells), Some(&1));
    assert_eq!(rec.table.get(&scrambled(&[4, 9]).n_cells), Some(&2));
}

#[test]
fn meet_finder_finds_the_meeting_point() {
    let solved = SBall::new();
    let mut rec = DepthRecorder::new(&solved, 1);
    solved.find_solution(1, &mut rec);
    let ball = scrambled(&[2, 10]);
    let mut meet = MeetFinder::new(&ball, rec.table);
    ball.find_solution(1, &mut meet);
    let (n, path) = meet.best.expect("a meeting point");
    assert_eq!(n + path.len(), 2);
}

#[test]
fn path_finder_finds_reversed_path() {
    let solved = SBall::new();
    let target = scrambled(&[2, 10, 5]);
    let mut finder = PathFinder::new(&solved, target.n_cells, 3);
    solved.find_solution(3, &mut finder);
    let back = finder.found.expect("a path");
    assert_eq!(back, vec![5, 10, 2]);
    assert_eq!(played(&target, &back), solved);
}

#[test]
fn color_finder_finds_both_parities() {
    let ball = scrambled(&[7]);
    let mut cf = ColorFinder::new(&ball);
    ball.find_solution(3, &mut cf);
    let even = cf.even.expect("even");
    let odd = cf.odd.expect("odd");
    assert_eq!(even.len() % 2, 0);
    assert_eq!(odd.len() % 2, 1);
    assert!(played(&ball, &even).colors_correct());
    assert!(played(&ball, &odd).colors_correct());
}

#[test]
fn segment_collector_collects_wanted_balls() {
    let solved = SBall::new();
    let mut wanted = fnv::FnvHashSet::default();
    wanted.insert(scrambled(&[3, 5]).n_cells);
    wanted.insert(scrambled(&[3, 5, 7, 9]).n_cells);
    let mut col = SegmentCollector::new(&solved, wanted, 2);
    solved.find_solution(2, &mut col);
    assert_eq!(col.found.len(), 1);
    assert_eq!(col.found.get(&scrambled(&[3, 5]).n_cells), Some(&vec![3, 5]));
}

#[test]
fn position_of_number_finds_first() {
    let ball = scrambled(&[0]);
    // cells 9, 7, 5, 3, ...: number 4 at position 0
    assert_eq!(position_of_number(&ball, 4), Some(0));
    assert_eq!(position_of_number(&ball, 5), Some(4));
    assert_eq!(position_of_number(&ball, 13), None);
}

#[test]
fn compress_drops_a_flip_done_twice() {
    let (r, n) = compress_solution_with_depth(&vec![3, 3, 5], 2);
    assert_eq!(r, vec![5]);
    assert_eq!(n, 4);
}

#[test]
fn compress_counts_segment_balls() {
    // The segments of [3] lead to the solved ball and to the ball after flip 3.
    let (r, n) = compress_solution_with_depth(&vec![3], 1);
    assert_eq!(r, vec![3]);
    assert_eq!(n, 2);
    // Within no flips only the solved ball is reached.
    let (_, n) = compress_solution_with_depth(&vec![3, 3, 5], 0);
    assert_eq!(n, 1);
}

#[test]
fn compress_uses_a_shortcut() {
    // Flips 7, 7 do nothing, so [7, 7, 2] has the shortcut [] for its first two flips.
    let (r, _) = compress_solution_with_depth(&vec![7, 7, 2], 1);
    assert!(r.len() < 3);
    assert_eq!(played(&SBall::new(), &r), scrambled(&[2]));
}

#[test]
fn meet_finder_keeps_first_in_search_order() {
    // Within one flip the search goes to flip 6 before flip 0.
    let solved = SBall::new();
    let mut table = fnv::FnvHashMap::default();
    table.insert(scrambled(&[0]).n_cells, 0usize);
    table.insert(scrambled(&[6]).n_cells, 0usize);
    let mut mf = MeetFinder::new(&solved, table);
    solved.find_solution(1, &mut mf);
    assert_eq!(mf.best, Some((0, vec![6])));
}

#[test]
fn compress_keeps_an_incompressible_sequence() {
    let v = vec![3usize, 5];
    let (r, _) = compress_solution_with_depth(&v, 2);
    assert_eq!(r, v);
}

#[test]
fn compress_result_does_the_same() {
    let v = vec![1usize, 4, 4, 9, 2, 2, 7, 11];
    let (r, _) = compress_solution_with_depth(&v, 3);
    assert!(r.len() < v.len());
    let start = scrambled(&[6, 0, 12]);
    assert_eq!(played(&start, &r), played(&start, &v));
}

#[test]
fn solve_by_meeting_in_the_middle() {
    let ball = scrambled(&[3, 7, 1, 12]);
    let sol = solve_with_depths(&ball, 2, 3, 3).expect("solvable within four flips");
    assert!(sol.compression_entries.is_empty());
    assert_eq!(sol.flips.len(), 4);
    assert_eq!(played(&ball, &sol.flips).n_cells, N_SOLVED);
}

#[test]
fn solve_solved_ball_needs_nothing() {
    let sol = solve_with_depths(&SBall::new(), 1, 1, 1).expect("solved");
    assert!(sol.flips.is_empty());
}

#[test]
fn solve_by_colours_then_numbers() {
    let ball = scrambled(&[3, 7, 1, 12]);
    let sol = solve_with_depths(&ball, 1, 3, 3).expect("solvable");
    assert_eq!(sol.compression_entries.len(), 2);
    assert!(sol.flips.iter().all(|&k| k < 13));
    let done = played(&ball, &sol.flips);
    assert!(done.is_solved());
    assert_eq!(done.n_cells, N_SOLVED);
}

#[test]
fn solve_gives_up_without_both_colour_parities() {
    let ball = scrambled(&[0, 6, 2, 9, 4]);
    let mut cf = ColorFinder::new(&ball);
    ball.find_solution(3, &mut cf);
    assert!(cf.even.is_none() || cf.odd.is_none());
    assert!(solve_with_depths(&ball, 1, 3, 3).is_none());
}

#[test]
fn compress_never_lengthens() {
    let v = vec![0usize, 6, 2, 9, 4, 11, 1, 7];
    let (r, _) = compress_solution_with_depth(&v, 0);
    assert_eq!(r, v);
    let (r, _) = compress_solution_with_depth(&v, 2);
    assert!(r.len() <= v.len());
    let start = scrambled(&[3]);
    assert_eq!(played(&start, &r), played(&start, &v));
}

#[test]
fn cycles_in_reverse_order_turn_three_positions() {
    for k in 0..10 {
        let p = brainball_solver::solver::permutation_flips(k);
        let mut b = SBall::new();
        for j in (0..6).rev() {
            b.flip(p[j]);
        }
        let cells: Vec<u64> = (0..12).map(|i| (b.n_cells >> (5 * i)) & 31).collect();
        for i in 0..12 {
            let from = if i == k {
                k + 1
            } else if i == k + 1 {
                k + 2
            } else if i == k + 2 {
                k
            } else {
                i
            };
            assert_eq!(cells[i], 2 * from as u64 + 2);
        }
    }
}

#[test]
fn solve_is_no_longer_than_a_known_solution() {
    // flips 1 and 7 were done; undoing them takes two flips at most
    let ball = scrambled(&[1, 7]);
    let sol = solve_with_depths(&ball, 1, 1, 1).expect("two flips solve it");
    assert!(sol.flips.len() <= 2);
    assert!(sol.compression_entries.is_empty());
    assert_eq!(played(&ball, &sol.flips), SBall::new());
}

#[test]
fn compress_with_paths_uses_the_table() {
    let v = vec![7usize, 7, 2];
    let empty: fnv::FnvHashMap<u64, Vec<usize>> = fnv::FnvHashMap::default();
    assert_eq!(compress_with_paths(&v, &empty), v);
    let mut found = fnv::FnvHashMap::default();
    found.insert(N_SOLVED, Vec::<usize>::new());
    assert_eq!(compress_with_paths(&v, &found), vec![2]);
    // A path as long as its segment is not taken.
    let mut found = fnv::FnvHashMap::default();
    found.insert(scrambled(&[7, 2]).n_cells, vec![7, 2]);
    assert_eq!(compress_with_paths(&vec![1usize, 7, 2], &found), vec![1, 7, 2]);
}

#[test]
fn solve_falls_back_on_colours_then_numbers_for_a_far_ball() {
    let ball = scrambled(&[0, 6, 2, 9, 4, 11, 1, 7, 3]);
    let sol = solve_with_depths(&ball, 1, 4, 2).expect("colour paths of both parities within four flips");
    assert_eq!(played(&ball, &sol.flips).n_cells, N_SOLVED);
}
