use rope_bridge::instruction::Instruction;
use rope_bridge::position::Pos;
use rope_bridge::recorder::TailRecorder;
use rope_bridge::rope::{follow_head, follow_heads};

fn at(x: i32, y: i32) -> Pos {
    Pos { x, y }
}

fn followed(leader: Pos, follower: Pos) -> Pos {
    let mut knot = follower;
    follow_head(leader, &mut knot);
    knot
}

fn touch(a: Pos, b: Pos) -> bool {
    (a.x as i64 - b.x as i64).abs() <= 1 && (a.y as i64 - b.y as i64).abs() <= 1
}

fn taut(rope: &[Pos]) -> bool {
    let mut i = 0;
    while i + 1 < rope.len() {
        if !touch(rope[i], rope[i + 1]) {
            return false;
        }
        i += 1;
    }
    true
}

#[test]
fn a_follower_two_right_and_one_up_steps_diagonally() {
    assert_eq!(followed(at(2, 1), at(0, 0)), at(1, 1));
}

#[test]
fn a_follower_that_touches_its_leader_stays() {
    let mut dx = -1;
    while dx <= 1 {
        let mut dy = -1;
        while dy <= 1 {
            assert_eq!(followed(at(5 + dx, -3 + dy), at(5, -3)), at(5, -3));
            dy += 1;
        }
        dx += 1;
    }
}

#[test]
fn a_follower_in_the_same_column_moves_along_it() {
    assert_eq!(followed(at(3, 5), at(3, 3)), at(3, 4));
    assert_eq!(followed(at(3, 1), at(3, 3)), at(3, 2));
    assert_eq!(followed(at(3, 9), at(3, 3)), at(3, 4));
}

#[test]
fn a_follower_in_the_same_row_moves_along_it() {
    assert_eq!(followed(at(5, 3), at(3, 3)), at(4, 3));
    assert_eq!(followed(at(1, 3), at(3, 3)), at(2, 3));
    assert_eq!(followed(at(-7, 3), at(3, 3)), at(2, 3));
}

#[test]
fn a_follower_off_both_axes_moves_diagonally() {
    assert_eq!(followed(at(1, 2), at(0, 0)), at(1, 1));
    assert_eq!(followed(at(2, 2), at(0, 0)), at(1, 1));
    assert_eq!(followed(at(-1, 2), at(0, 0)), at(-1, 1));
    assert_eq!(followed(at(-2, -1), at(0, 0)), at(-1, -1));
    assert_eq!(followed(at(2, -2), at(0, 0)), at(1, -1));
    assert_eq!(followed(at(1, -2), at(0, 0)), at(1, -1));
    assert_eq!(followed(at(10, -20), at(0, 0)), at(1, -1));
}

#[test]
fn the_follow_rule_works_at_the_edge_of_the_lattice() {
    assert_eq!(
        followed(at(i32::MAX, i32::MAX), at(i32::MIN, i32::MIN)),
        at(i32::MIN + 1, i32::MIN + 1)
    );
    assert_eq!(
        followed(at(i32::MIN, i32::MAX), at(i32::MAX, i32::MAX)),
        at(i32::MAX - 1, i32::MAX)
    );
    assert_eq!(
        followed(at(i32::MAX, i32::MAX - 1), at(i32::MAX, i32::MAX)),
        at(i32::MAX, i32::MAX)
    );
}

#[test]
fn a_command_moves_the_head_by_its_count() {
    let mut rope = vec![at(0, 0); 2];
    let mut history = TailRecorder::new();
    follow_heads(Instruction::Right(4), &mut rope, &mut history);
    assert_eq!(rope, vec![at(4, 0), at(3, 0)]);
    follow_heads(Instruction::Up(4), &mut rope, &mut history);
    assert_eq!(rope, vec![at(4, 4), at(4, 3)]);
    follow_heads(Instruction::Left(3), &mut rope, &mut history);
    assert_eq!(rope, vec![at(1, 4), at(2, 4)]);
    follow_heads(Instruction::Down(1), &mut rope, &mut history);
    assert_eq!(rope, vec![at(1, 3), at(2, 4)]);
    assert_eq!(history.count(), 9);
}

#[test]
fn a_long_rope_bends_behind_its_head() {
    let mut rope = vec![at(0, 0); 10];
    let mut history = TailRecorder::new();
    follow_heads(Instruction::Right(5), &mut rope, &mut history);
    follow_heads(Instruction::Up(8), &mut rope, &mut history);
    assert_eq!(
        rope,
        vec![
            at(5, 8),
            at(5, 7),
            at(5, 6),
            at(5, 5),
            at(5, 4),
            at(4, 4),
            at(3, 3),
            at(2, 2),
            at(1, 1),
            at(0, 0),
        ]
    );
    assert_eq!(history.count(), 1);
}

#[test]
fn a_rope_of_one_knot_records_its_head() {
    let mut rope = vec![at(0, 0)];
    let mut history = TailRecorder::new();
    follow_heads(Instruction::Down(3), &mut rope, &mut history);
    assert_eq!(rope, vec![at(0, -3)]);
    assert_eq!(history.count(), 4);
    assert!(history.contains(at(0, -3)));
}

#[test]
fn a_command_of_no_steps_changes_nothing() {
    let mut rope = vec![at(7, 7), at(6, 6), at(5, 5)];
    let mut history = TailRecorder::new();
    follow_heads(Instruction::Left(0), &mut rope, &mut history);
    assert_eq!(rope, vec![at(7, 7), at(6, 6), at(5, 5)]);
    assert_eq!(history.count(), 1);
    assert!(!history.contains(at(5, 5)));
}

#[test]
fn every_knot_touches_the_next_after_every_unit_step() {
    let commands = [
        Instruction::Right(5),
        Instruction::Up(8),
        Instruction::Left(8),
        Instruction::Down(3),
        Instruction::Right(17),
        Instruction::Down(10),
        Instruction::Left(25),
        Instruction::Up(20),
    ];
    let mut rope = vec![at(0, 0); 10];
    let mut history = TailRecorder::new();
    for command in commands {
        let one = match command {
            Instruction::Up(_) => Instruction::Up(1),
            Instruction::Down(_) => Instruction::Down(1),
            Instruction::Left(_) => Instruction::Left(1),
            Instruction::Right(_) => Instruction::Right(1),
        };
        let mut step = 0;
        while step < command.distance() {
            follow_heads(one, &mut rope, &mut history);
            assert!(taut(&rope));
            step += 1;
        }
    }
    assert_eq!(history.count(), 36);
}

#[test]
fn a_unit_step_moves_the_head_by_one_and_no_knot_by_more() {
    let steps = [
        Instruction::Right(1),
        Instruction::Right(1),
        Instruction::Up(1),
        Instruction::Up(1),
        Instruction::Up(1),
        Instruction::Left(1),
        Instruction::Left(1),
        Instruction::Left(1),
        Instruction::Left(1),
        Instruction::Down(1),
        Instruction::Down(1),
        Instruction::Down(1),
        Instruction::Down(1),
        Instruction::Down(1),
        Instruction::Right(1),
    ];
    let mut rope = vec![at(0, 0); 4];
    let mut history = TailRecorder::new();
    for step in steps {
        let before = rope.clone();
        follow_heads(step, &mut rope, &mut history);
        let head =
            (rope[0].x - before[0].x).abs() + (rope[0].y - before[0].y).abs();
        assert_eq!(head, 1);
        let mut knot = 0;
        while knot < rope.len() {
            assert!(touch(rope[knot], before[knot]));
            knot += 1;
        }
    }
}

#[test]
fn a_command_of_k_steps_adds_at_most_k_places() {
    let mut rope = vec![at(0, 0); 2];
    let mut history = TailRecorder::new();
    follow_heads(Instruction::Right(4), &mut rope, &mut history);
    // Four observations: the origin again, then three new places.
    assert_eq!(history.count(), 4);
    follow_heads(Instruction::Left(4), &mut rope, &mut history);
    // Four observations, all of places seen before.
    assert_eq!(history.count(), 4);
    follow_heads(Instruction::Left(5), &mut rope, &mut history);
    // Five observations, four of them new.
    assert_eq!(history.count(), 8);
}

#[test]
fn the_count_never_shrinks() {
    let steps = [
        Instruction::Right(3),
        Instruction::Left(6),
        Instruction::Up(2),
        Instruction::Right(1),
        Instruction::Down(4),
        Instruction::Left(1),
        Instruction::Up(2),
    ];
    let mut rope = vec![at(0, 0); 2];
    let mut history = TailRecorder::new();
    let mut last = history.count();
    for step in steps {
        follow_heads(step, &mut rope, &mut history);
        assert!(history.count() >= last);
        assert!(history.contains(at(0, 0)));
        last = history.count();
    }
    assert_eq!(last, 7);
}

#[test]
fn undoing_the_commands_brings_the_head_back() {
    let commands = [
        Instruction::Right(4),
        Instruction::Up(4),
        Instruction::Left(3),
        Instruction::Down(1),
        Instruction::Right(4),
        Instruction::Down(1),
        Instruction::Left(5),
        Instruction::Right(2),
    ];
    let undo = [
        Instruction::Left(2),
        Instruction::Right(5),
        Instruction::Up(1),
        Instruction::Left(4),
        Instruction::Up(1),
        Instruction::Right(3),
        Instruction::Down(4),
        Instruction::Left(4),
    ];
    let mut rope = vec![at(0, 0); 2];
    let mut history = TailRecorder::new();
    for command in commands {
        follow_heads(command, &mut rope, &mut history);
    }
    assert_eq!(rope[0], at(2, 2));
    let there = history.count();
    assert_eq!(there, 13);
    for command in undo {
        follow_heads(command, &mut rope, &mut history);
    }
    assert_eq!(rope[0], at(0, 0));
    assert!(history.count() >= there);
}

#[test]
fn commands_tell_their_distance() {
    assert_eq!(Instruction::Up(3).distance(), 3);
    assert_eq!(Instruction::Down(0).distance(), 0);
    assert_eq!(Instruction::Left(u32::MAX).distance(), u32::MAX);
    assert_eq!(Instruction::Right(10).distance(), 10);
}

#[test]
fn commands_tell_whether_the_head_can_carry_them_out() {
    assert!(Instruction::Up(5).can_move(at(0, 0)));
    assert!(Instruction::Up(5).can_move(at(0, i32::MAX - 5)));
    assert!(!Instruction::Up(5).can_move(at(0, i32::MAX - 4)));
    assert!(Instruction::Down(5).can_move(at(0, i32::MIN + 5)));
    assert!(!Instruction::Down(5).can_move(at(0, i32::MIN + 4)));
    assert!(Instruction::Left(1).can_move(at(i32::MIN + 1, 0)));
    assert!(!Instruction::Left(1).can_move(at(i32::MIN, 0)));
    assert!(Instruction::Right(0).can_move(at(i32::MAX, i32::MAX)));
    assert!(!Instruction::Right(1).can_move(at(i32::MAX, 0)));
    assert!(Instruction::Right(u32::MAX).can_move(at(i32::MIN, 0)));
    assert!(!Instruction::Right(u32::MAX).can_move(at(i32::MIN + 1, 0)));
    assert!(Instruction::Up(2147483647).can_move(at(0, 0)));
    assert!(!Instruction::Up(2147483648).can_move(at(0, 0)));
    assert!(Instruction::Down(2147483648).can_move(at(0, 0)));
    assert!(!Instruction::Down(2147483649).can_move(at(0, 0)));
}

#[test]
fn the_head_can_walk_to_the_edge_of_the_lattice() {
    let mut rope = vec![at(i32::MAX - 3, i32::MIN + 2), at(i32::MAX - 3, i32::MIN + 2)];
    let mut history = TailRecorder::new();
    follow_heads(Instruction::Right(3), &mut rope, &mut history);
    assert_eq!(rope, vec![at(i32::MAX, i32::MIN + 2), at(i32::MAX - 1, i32::MIN + 2)]);
    follow_heads(Instruction::Down(2), &mut rope, &mut history);
    assert_eq!(rope, vec![at(i32::MAX, i32::MIN), at(i32::MAX, i32::MIN + 1)]);
    assert!(history.contains(at(i32::MAX, i32::MIN + 1)));
    assert!(history.contains(at(i32::MAX - 1, i32::MIN + 2)));
    assert!(!history.contains(at(i32::MIN + 1, i32::MAX)));
    assert_eq!(history.count(), 5);
}
