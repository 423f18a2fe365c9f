use brainball_solver::ball::SBall;
use brainball_solver::display::{
    ball_layout, cell_parts, flip_offset, human_steps, solution_frames, Announcement, VHumanStep,
};

#[test]
fn flip_offsets() {
    let expected: [isize; 13] = [0, -1, -2, -6, -7, -8, -3, -4, -5, -9, -10, -11, -12];
    for k in 0..13 {
        assert_eq!(flip_offset(k), expected[k]);
    }
}

#[test]
fn steps_for_a_flip_at_the_top() {
    assert_eq!(human_steps(&[0]), vec![VHumanStep::Flip(0)]);
}

#[test]
fn steps_turn_and_turn_back() {
    assert_eq!(
        human_steps(&[3]),
        vec![VHumanStep::Rotate(-6), VHumanStep::Flip(3), VHumanStep::Rotate(6)]
    );
}

#[test]
fn steps_merge_consecutive_turns() {
    assert_eq!(
        human_steps(&[3, 4]),
        vec![
            VHumanStep::Rotate(-6),
            VHumanStep::Flip(3),
            VHumanStep::Rotate(-1),
            VHumanStep::Flip(4),
            VHumanStep::Rotate(7)
        ]
    );
    assert_eq!(
        human_steps(&[3, 0]),
        vec![
            VHumanStep::Rotate(-6),
            VHumanStep::Flip(3),
            VHumanStep::Rotate(6),
            VHumanStep::Flip(0)
        ]
    );
}

#[test]
fn steps_drop_turns_that_cancel() {
    assert_eq!(
        human_steps(&[3, 7, 3]),
        vec![
            VHumanStep::Rotate(-6),
            VHumanStep::Flip(3),
            VHumanStep::Rotate(2),
            VHumanStep::Flip(7),
            VHumanStep::Rotate(-2),
            VHumanStep::Flip(3),
            VHumanStep::Rotate(6)
        ]
    );
    assert_eq!(
        human_steps(&[3, 3]),
        vec![VHumanStep::Rotate(-6), VHumanStep::Flip(3), VHumanStep::Flip(3), VHumanStep::Rotate(6)]
    );
    assert_eq!(human_steps(&[]), Vec::<VHumanStep>::new());
}

#[test]
fn steps_turn_back_to_the_start() {
    let flips = vec![5usize, 12, 1, 9, 0, 0, 6];
    let steps = human_steps(&flips);
    let mut offset = 0isize;
    let mut done = Vec::new();
    for s in &steps {
        match s {
            VHumanStep::Rotate(n) => offset += n,
            VHumanStep::Flip(k) => done.push(*k),
        }
        assert!(-12 <= offset && offset <= 0);
    }
    assert_eq!(offset, 0);
    assert_eq!(done, flips);
}

#[test]
fn cell_parts_of_cells() {
    assert_eq!(cell_parts(0b11010), (false, 13));
    assert_eq!(cell_parts(0b00111), (true, 3));
    assert_eq!(cell_parts(0), (false, 0));
}

#[test]
fn layout_of_the_entered_ball() {
    let input: Vec<isize> = vec![1, 2, -3, 4, 5, -6, -7, -8, 9, 10, -11, -12, 13];
    let (ball, offset) = SBall::new_from_vec(&input);
    let layout = ball_layout(&ball, offset);
    let expected: Vec<u64> = input
        .iter()
        .map(|&x| if x < 0 { (-2 * x + 1) as u64 } else { (2 * x) as u64 })
        .collect();
    assert_eq!(layout, expected);
}

#[test]
fn layout_with_the_13_in_the_middle() {
    let input: Vec<isize> = vec![5, -13, 7, 1, 2, 3, 4, 6, 8, 9, 10, 11, -12];
    let (ball, offset) = SBall::new_from_vec(&input);
    let layout = ball_layout(&ball, offset);
    assert_eq!(layout, vec![10, 26, 14, 2, 4, 6, 8, 12, 16, 18, 20, 22, 25]);
}

#[test]
fn layout_of_solved_ball_unturned() {
    let layout = ball_layout(&SBall::new(), 0);
    assert_eq!(layout, vec![2, 4, 6, 8, 10, 12, 14, 16, 18, 20, 22, 24, 26]);
    let layout = ball_layout(&SBall::new(), -1);
    assert_eq!(layout, vec![4, 6, 8, 10, 12, 14, 16, 18, 20, 22, 24, 26, 2]);
}

#[test]
fn frames_of_a_solution() {
    let ball = SBall::new();
    let frames = solution_frames(&ball, 3, &[3, 0]);
    assert_eq!(frames.len(), 5);
    assert_eq!(frames[0].announcement, Announcement::Start);
    assert_eq!(frames[0].n_offset, 3);
    assert_eq!(frames[0].ball, ball);
    // The first turn is counted from where the ring was shown at first.
    assert_eq!(frames[1].announcement, Announcement::Rotate(-9));
    assert_eq!(frames[1].n_offset, -6);
    assert_eq!(frames[2].announcement, Announcement::Flip);
    let mut b = ball;
    b.flip(3);
    assert_eq!(frames[2].ball, b);
    assert_eq!(frames[3].announcement, Announcement::Rotate(6));
    assert_eq!(frames[3].n_offset, 0);
    assert_eq!(frames[4].announcement, Announcement::Flip);
    b.flip(0);
    assert_eq!(frames[4].ball, b);
    assert_eq!(frames[4].n_offset, 0);
}
