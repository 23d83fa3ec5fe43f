use solvers::assignments::{contains, overlaps};
use solvers::crane::{exec, exec2, transpose, Op};
use solvers::crt::Op as CycleOp;
use solvers::dirtree::{dive, Dir};
use solvers::monkeys::{Item, Monkey, Operation, Test};
use solvers::paths::{make_path, prefixes};
use solvers::rope::{adjacent, pull_rope, P};
use solvers::rps::{determine_hand, Outcome, Rps};
use solvers::rucksack::priority;
use std::collections::VecDeque;

#[test]
fn hand_for_each_outcome() {
    assert_eq!(determine_hand(&Rps::Rock, &Outcome::Win), Rps::Paper);
    assert_eq!(determine_hand(&Rps::Paper, &Outcome::Win), Rps::Scissors);
    assert_eq!(determine_hand(&Rps::Scissors, &Outcome::Win), Rps::Rock);
    assert_eq!(determine_hand(&Rps::Rock, &Outcome::Loss), Rps::Scissors);
    assert_eq!(determine_hand(&Rps::Paper, &Outcome::Loss), Rps::Rock);
    assert_eq!(determine_hand(&Rps::Scissors, &Outcome::Loss), Rps::Paper);
    assert_eq!(determine_hand(&Rps::Rock, &Outcome::Tie), Rps::Rock);
    assert_eq!(Rps::Paper.score() + Outcome::Win.score(), 8);
}

#[test]
fn priorities() {
    assert_eq!(priority('a'), 1);
    assert_eq!(priority('z'), 26);
    assert_eq!(priority('A'), 27);
    assert_eq!(priority('Z'), 52);
    assert_eq!(priority('p'), 16);
}

#[test]
fn range_containment() {
    assert!(contains(&[2, 8], &[3, 7]));
    assert!(contains(&[6, 6], &[4, 6]));
    assert!(!contains(&[2, 4], &[6, 8]));
    assert!(overlaps(&[5, 7], &[7, 9]));
    assert!(overlaps(&[2, 8], &[3, 7]));
    assert!(!overlaps(&[2, 4], &[6, 8]));
}

fn stacks(init: &[&str]) -> Vec<Vec<char>> {
    init.iter().map(|s| s.chars().collect()).collect()
}

#[test]
fn crane_moves_one_at_a_time() {
    let mut s = stacks(&["ZN", "MCD", "P"]);
    exec(&mut s, Op(2, 2, 1));
    assert_eq!(s, stacks(&["ZNDC", "M", "P"]));
}

#[test]
fn crane_moves_in_one_grab() {
    let mut s = stacks(&["ZN", "MCD", "P"]);
    exec2(&mut s, Op(2, 2, 1));
    assert_eq!(s, stacks(&["ZNCD", "M", "P"]));
}

#[test]
fn crane_transpose_reads_columns() {
    // drawing rows, top first; blanks are dropped
    let rows = stacks(&[" D ", "NC ", "ZMP"]);
    let t = transpose(&rows);
    assert_eq!(t, stacks(&["ZN", "MCD", "P"]));
}

#[test]
fn dir_totals_and_picks() {
    let mut root = Dir::new();
    root.size = 10;
    let mut small = Dir::new();
    small.size = 3;
    let mut tiny = Dir::new();
    tiny.size = 1;
    small.subd.push(tiny);
    root.subd.push(small);
    let le_four = |sz: u32| sz <= 4;
    let (total, sizes) = dive(&root, &le_four);
    assert_eq!(total, 14);
    assert_eq!(sizes, vec![1, 4]);
    let (_, all) = dive(&root, &|_sz: u32| true);
    assert_eq!(all, vec![1, 4, 14]);
}

#[test]
fn joined_paths_and_prefixes() {
    let comps: Vec<Vec<char>> = vec!["a".chars().collect(), "bb".chars().collect()];
    let joined: String = make_path(&comps).into_iter().collect();
    assert_eq!(joined, "a/bb");
    let pre = prefixes(&comps);
    let views: Vec<String> = pre.into_iter().map(|p| p.into_iter().collect()).collect();
    assert_eq!(views, vec!["", "a", "a/bb"]);
}

#[test]
fn rope_tail_follows() {
    let mut rope = vec![P { x: 0, y: 0 }, P { x: 0, y: 0 }];
    pull_rope(&mut rope, &'R');
    assert_eq!(rope[0], P { x: 1, y: 0 });
    assert_eq!(rope[1], P { x: 0, y: 0 });
    pull_rope(&mut rope, &'R');
    assert_eq!(rope[0], P { x: 2, y: 0 });
    assert_eq!(rope[1], P { x: 1, y: 0 });
    pull_rope(&mut rope, &'U');
    // still diagonally adjacent: the tail stays put
    assert_eq!(rope[1], P { x: 1, y: 0 });
    pull_rope(&mut rope, &'U');
    // the tail closes up diagonally
    assert_eq!(rope[0], P { x: 2, y: 2 });
    assert_eq!(rope[1], P { x: 2, y: 1 });
    assert!(adjacent(&rope[0], &rope[1]));
}

#[test]
fn op_cycles() {
    assert_eq!(CycleOp::Noop.cycles(), 1);
    assert_eq!(CycleOp::Addx(-5).cycles(), 2);
}

#[test]
fn monkey_inspection() {
    assert_eq!(Operation::Add(3).apply(&Item(4)), 7);
    assert_eq!(Operation::Mul(5).apply(&Item(4)), 20);
    assert_eq!(Operation::Square.apply(&Item(6)), 36);
    let test = Test { arg: 3, monkey1: 7, monkey2: 4 };
    assert_eq!(test.apply(&Item(9)), 7);
    assert_eq!(test.apply(&Item(10)), 4);
    let m = Monkey::new(VecDeque::new(), Operation::Square, test);
    assert_eq!(m.inspected, 0);
}
