use solvers::beacons::{distance, Range, RangeSet};
use solvers::cave::{can_move_down, can_move_down_left, can_move_down_right, Cave};
use solvers::elves::{adjacent3, adjacent_positions as elf_ring, boundaries, total_area, Dir as ElfDir};
use solvers::grove::{next_pos, next_pos_cube, password, turn, walk, Board, Dir, Ins, P};
use solvers::lava::{adjacent_positions, grid_contains, neighbors};
use solvers::mixing::wrap_index;
use solvers::monkey_math::{find_starters, reverse_op, split_branches, toposort, yell, Monkey, Op};
use solvers::packets::{compare, insert, singleton, Item, Order};
use solvers::snafu::{add_snafu, digitize, snafu};
use solvers::tetris::{polyominos, Chamber, Dir as RockDir, Polyomino, Rock, P as TileP};

#[test]
fn test_range_overlaps() {
    assert!(Range::new(-1, 1).overlaps(&Range::new(0, 2)));
    assert!(Range::new(-1, 1).overlaps(&Range::new(1, 2)));
    assert!(Range::new(0, 1).overlaps(&Range::new(2, 3))); // [0,1]U[2,3] = [0,3]
}

#[test]
fn test_range_extend() {
    let mut r1 = Range::new(0, 2);
    r1.extend(&Range::new(2, 4));
    assert_eq!((r1.lo, r1.hi), (0, 4));
    let mut r1 = Range::new(0, 2);
    r1.extend(&Range::new(1, 5));
    assert_eq!((r1.lo, r1.hi), (0, 5));
}

#[test]
fn test_set_union() {
    let mut set = RangeSet::new();
    set.union(3, 4);
    assert_eq!(set.inner[0], Range::new(3, 4));
    set.union(1, 2);
    assert_eq!(set.inner.len(), 1); // [1,2]U[3,4] = [1,4]
    assert_eq!(set.inner, vec![Range::new(1, 4)]);
    set.union(2, 3);
    assert_eq!(set.inner.len(), 1);
    set.union(2, 5);
    assert_eq!(set.inner.len(), 1);
    assert_eq!(set.inner[0], Range::new(1, 5));
    set.union(-1, 0); // [-1,0] U [1,5] = [-1, 5]
    assert_eq!(set.inner.len(), 1);
    assert_eq!(set.inner, vec![Range::new(-1, 5)]);
}

#[test]
fn beacon_set_hole_and_distance() {
    let mut set = RangeSet::new();
    set.union(1, 2);
    set.union(4, 5);
    assert!(set.disjoint());
    assert_eq!(set.hole(), 3);
    assert_eq!(distance((0, 0), (3, -4)), 7);
}

#[test]
fn test_neighbors() {
    let grid = vec![[0, 0, 0], [1, 0, 0]];
    let p0 = [0, 0, 0];
    let ns = neighbors(&grid, p0);
    println!("{:?}", ns);
    assert_eq!(ns, vec![[1, 0, 0]]);
}

#[test]
fn lava_adjacency() {
    let all = adjacent_positions([1, 1, 1]);
    assert_eq!(all.len(), 6);
    let edge = adjacent_positions([0, 1, 1]);
    assert_eq!(edge.len(), 5);
    let grid = vec![[0, 0, 0]];
    assert!(grid_contains(&grid, &[0, 0, 0]));
    assert!(!grid_contains(&grid, &[0, 0, 1]));
}

#[test]
fn test_mod() {
    // [0, 1, 2, 3]
    // pos ^
    let len = 4;
    let n = -3;
    let pos = 1isize;
    let target = (pos + n).rem_euclid(len);
    println!("{}", target);
}

#[test]
fn mixing_wrap() {
    assert_eq!(wrap_index(1, -3, 4), 2);
    assert_eq!(wrap_index(0, 5, 4), 1);
    assert_eq!(wrap_index(2, 0, 4), 2);
}

#[test]
fn monkey_structure() {
    assert!(Monkey::K(3).is_k());
    assert!(!Monkey::Add(0, 1).is_k());
    assert!(Monkey::Sub(2, 5).needs(5));
    assert!(!Monkey::Mul(2, 5).needs(3));
    assert_eq!(Monkey::Div(7, 9).operands(), [7, 9]);
}

#[test]
fn yelling_in_order() {
    let monkeys = vec![
        Monkey::K(4),
        Monkey::K(2),
        Monkey::Div(0, 1),
        Monkey::Add(2, 1),
    ];
    // 4 / 2 = 2, then 2 + 2 = 4
    assert_eq!(yell(&monkeys, vec![0, 1, 2, 3]), 4);
}

#[test]
fn listener_ordering() {
    let monkeys = vec![
        Monkey::K(4),
        Monkey::K(2),
        Monkey::Div(0, 1),
        Monkey::Add(2, 1),
    ];
    let mut starters = find_starters(&monkeys, 3);
    let order = toposort(&monkeys, starters.clone(), 3);
    assert_eq!(*order.last().unwrap(), 3);
    // (4 / 2) + 2
    assert_eq!(yell(&monkeys, order), 4);
    starters.sort();
    assert_eq!(starters, vec![0, 1]);
    let (lq, rq) = split_branches(&monkeys, 3);
    assert_eq!(*lq.last().unwrap(), 2);
    assert_eq!(*rq.last().unwrap(), 1);
}

#[test]
fn reverse_operations() {
    assert_eq!(reverse_op(Op::Add, 10, 3), 7); // x + 3 = 10
    assert_eq!(reverse_op(Op::Mul, 16, 2), 8); // 2 * x = 16
    assert_eq!(reverse_op(Op::Divl, 3, 12), 4); // 12 / x = 3
    assert_eq!(reverse_op(Op::Divr, 3, 4), 12); // x / 4 = 3
    assert_eq!(reverse_op(Op::Subl, 2, 5), 3); // 5 - x = 2
    assert_eq!(reverse_op(Op::Subr, 9, 3), 12); // x - 3 = 9
}

#[test]
fn packets_compare() {
    assert_eq!(compare(&Item::Int(3), &Item::Int(5)), Some(Order::Right));
    assert_eq!(compare(&Item::Int(5), &Item::Int(5)), None);
    let mut left = Item::List(vec![]);
    insert(&mut left, Item::Int(1));
    insert(&mut left, Item::Int(2));
    let right = singleton(1);
    // [1,2] vs [1]: equal prefix, left longer
    assert_eq!(compare(&left, &right), Some(Order::Wrong));
    // 1 vs [2]
    assert_eq!(compare(&Item::Int(1), &singleton(2)), Some(Order::Right));
    // [] vs 0
    assert_eq!(compare(&Item::List(vec![]), &Item::Int(0)), Some(Order::Right));
}

fn p(y: usize, x: usize, dir: Dir) -> P {
    P { pos: (y, x), dir }
}

#[test]
fn test_cube_pos() {
    // A1
    assert_eq!(next_pos_cube(&p(0, 50, Dir::W)), p(149, 0, Dir::E));
    assert_eq!(next_pos_cube(&p(49, 50, Dir::W)), p(100, 0, Dir::E));
    // A2
    assert_eq!(next_pos_cube(&p(100, 0, Dir::W)), p(49, 50, Dir::E));
    assert_eq!(next_pos_cube(&p(149, 0, Dir::W)), p(0, 50, Dir::E));
    // B1
    assert_eq!(next_pos_cube(&p(50, 50, Dir::W)), p(100, 0, Dir::S));
    assert_eq!(next_pos_cube(&p(99, 50, Dir::W)), p(100, 49, Dir::S));
    // B2
    assert_eq!(next_pos_cube(&p(100, 0, Dir::N)), p(50, 50, Dir::E));
    assert_eq!(next_pos_cube(&p(100, 49, Dir::N)), p(99, 50, Dir::E));
    // C1
    assert_eq!(next_pos_cube(&p(49, 100, Dir::S)), p(50, 99, Dir::W));
    assert_eq!(next_pos_cube(&p(49, 149, Dir::S)), p(99, 99, Dir::W));
    // C2
    assert_eq!(next_pos_cube(&p(50, 99, Dir::E)), p(49, 100, Dir::N));
    assert_eq!(next_pos_cube(&p(99, 99, Dir::E)), p(49, 149, Dir::N));
    // D1
    assert_eq!(next_pos_cube(&p(100, 99, Dir::E)), p(49, 149, Dir::W));
    assert_eq!(next_pos_cube(&p(149, 99, Dir::E)), p(0, 149, Dir::W));
    // D2
    assert_eq!(next_pos_cube(&p(0, 149, Dir::E)), p(149, 99, Dir::W));
    assert_eq!(next_pos_cube(&p(49, 149, Dir::E)), p(100, 99, Dir::W));
    // E1
    assert_eq!(next_pos_cube(&p(149, 50, Dir::S)), p(150, 49, Dir::W));
    assert_eq!(next_pos_cube(&p(149, 99, Dir::S)), p(199, 49, Dir::W));
    // E2
    assert_eq!(next_pos_cube(&p(150, 49, Dir::E)), p(149, 50, Dir::N));
    assert_eq!(next_pos_cube(&p(199, 49, Dir::E)), p(149, 99, Dir::N));
    // F1
    assert_eq!(next_pos_cube(&p(0, 100, Dir::N)), p(199, 0, Dir::N));
    assert_eq!(next_pos_cube(&p(0, 149, Dir::N)), p(199, 49, Dir::N));
    // F2
    assert_eq!(next_pos_cube(&p(199, 0, Dir::S)), p(0, 100, Dir::S));
    assert_eq!(next_pos_cube(&p(199, 49, Dir::S)), p(0, 149, Dir::S));
    // G1
    assert_eq!(next_pos_cube(&p(150, 0, Dir::W)), p(0, 50, Dir::S));
    assert_eq!(next_pos_cube(&p(199, 0, Dir::W)), p(0, 99, Dir::S));
    // G2
    assert_eq!(next_pos_cube(&p(0, 50, Dir::N)), p(150, 0, Dir::E));
    assert_eq!(next_pos_cube(&p(0, 99, Dir::N)), p(199, 0, Dir::E));
}

#[test]
fn grove_password_and_turns() {
    assert_eq!(password(&p(5, 7, Dir::E)), 1000 * 6 + 4 * 8);
    assert_eq!(password(&p(5, 7, Dir::N)), 1000 * 6 + 4 * 8 + 3);
    assert_eq!(turn(Dir::E, Ins::R), Dir::S);
    assert_eq!(turn(Dir::E, Ins::L), Dir::N);
    assert_eq!(turn(Dir::N, Ins::R), Dir::E);
}

#[test]
fn grove_board_start() {
    let board = Board {
        rows: vec!["##.#".chars().collect(), "....".chars().collect()],
        offsets: vec![2, 0],
        lengths: vec![4, 4],
    };
    // absolute columns 2..6 on row 0: first open tile sits at column 4
    assert_eq!(board.start(), (0, 4));
}

#[test]
fn grove_flat_walk_wraps() {
    let board = Board {
        rows: vec!["...".chars().collect()],
        offsets: vec![0],
        lengths: vec![3],
    };
    // east past the row end wraps to its start
    assert_eq!(next_pos(&board, &p(0, 2, Dir::E)), (0, 0));
    let mut walker = p(0, 0, Dir::E);
    walk(&board, &mut walker, 4);
    assert_eq!(walker.pos, (0, 1));

    let walled = Board {
        rows: vec![".#.".chars().collect()],
        offsets: vec![0],
        lengths: vec![3],
    };
    let mut walker = p(0, 0, Dir::E);
    walk(&walled, &mut walker, 5);
    // the wall stops the walk at once
    assert_eq!(walker.pos, (0, 0));
}

#[test]
fn elf_neighbourhood() {
    let ring = elf_ring((5, 5));
    assert_eq!(ring.len(), 8);
    assert!(ring.contains(&(4, 4)) && ring.contains(&(6, 6)) && ring.contains(&(5, 4)));
    let north = adjacent3((5, 5), ElfDir::N);
    assert_eq!(north, [(4, 4), (5, 4), (6, 4)]);
    let elves = vec![(0, 0), (2, 3), (-1, 1)];
    assert_eq!(boundaries(&elves), [-1, 0, 2, 3]);
    assert_eq!(total_area(&elves), 16);
}

#[test]
fn test_snafu() {
    let s = "2=-01";
    let mut n = digitize(s);
    n[..].reverse();
    let t = snafu(&n);
    assert_eq!(s, t);
}

fn snafu_to_i32(value: &str) -> i32 {
    value
        .chars()
        .rev()
        .enumerate()
        .map(|(i, d)| {
            5i32.pow(i as u32)
                * match d {
                    '=' => -2,
                    '-' => -1,
                    c => c.to_digit(10).unwrap() as i32,
                }
        })
        .sum()
}

#[test]
fn test_divrem() {
    let t = add_snafu("1=-0-2", "2=-01");
    assert_eq!(snafu_to_i32(&t), 976 + 1747);
}

#[test]
fn cave_tiles_and_moves() {
    // columns 4..=6, floor at row 3
    let mut cave = Cave {
        buf: vec![vec!['.'; 3]; 4],
        x_range: (4, 6),
        y_range: (0, 3),
    };
    assert_eq!(cave.get_tile((5, 3)), Some('#')); // the floor
    assert_eq!(cave.get_tile((3, 1)), None); // left of the stored columns
    cave.place_tile('#', (5, 1));
    assert_eq!(cave.get_tile((5, 1)), Some('#'));
    assert!(!can_move_down(&cave, (5, 0)));
    assert!(can_move_down_left(&cave, (5, 0)));
    assert!(can_move_down_right(&cave, (5, 0)));
    assert!(cave.at_left_border((4, 0)));
    assert!(!cave.at_left_border((5, 0)));
    assert!(cave.beyond_right_border((7, 0)));
    cave.expand_left();
    assert_eq!(cave.x_range, (3, 6));
    assert_eq!(cave.get_tile((3, 1)), Some('.'));
    cave.expand_right();
    assert_eq!(cave.x_range, (3, 7));
    assert_eq!(cave.get_tile((7, 1)), Some('.'));
}

#[test]
fn rock_cycle_and_tiles() {
    assert_eq!(
        polyominos(),
        vec![
            Polyomino::Dash,
            Polyomino::Plus,
            Polyomino::L,
            Polyomino::Pipe,
            Polyomino::Square,
        ]
    );
    assert_eq!(Polyomino::Pipe.height(), 4);
    assert_eq!(Polyomino::Dash.width(), 4);
    let rock = Rock { poly: Polyomino::Plus, pos: TileP { x: 2, y: 0 } };
    let tiles = rock.tiles();
    assert_eq!(tiles.len(), 5);
    assert!(tiles.contains(&TileP { x: 3, y: 1 }));
    assert!(!tiles.contains(&TileP { x: 2, y: 0 }));
}

#[test]
fn chamber_spawn_and_settle() {
    let mut chamber = Chamber::new();
    chamber.materialize_rock(Polyomino::Dash);
    let rock = chamber.rock.unwrap();
    assert_eq!(rock.pos, TileP { x: 2, y: 3 });
    assert_eq!(chamber.height(), 4);
    // a dash cannot slide right past the wall forever
    chamber.move_rock(RockDir::R);
    assert_eq!(chamber.rock.unwrap().pos, TileP { x: 3, y: 3 });
    chamber.move_rock(RockDir::R);
    assert_eq!(chamber.rock.unwrap().pos, TileP { x: 3, y: 3 });
    // drop to the floor
    for _ in 0..3 {
        assert!(!chamber.rock_at_rest());
        chamber.move_rock(RockDir::D);
    }
    assert!(chamber.rock_at_rest());
    let settled = chamber.ossify_rock();
    assert_eq!(settled.pos, TileP { x: 3, y: 0 });
    assert_eq!(chamber.rock_height, 1);
    assert_eq!(chamber.top_formation(), [0i32; 7]);
}
