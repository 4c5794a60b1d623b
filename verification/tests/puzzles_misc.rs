use puzzles::beams::BeamMap;
use puzzles::circuits::CircuitFinder;
use puzzles::dial::{dial_run, get_magnitude, Spin};
use puzzles::digitmax;
use puzzles::machines::Machine;
use puzzles::produce::{ProduceChecker, Range};
use puzzles::rolls::{Position, RollMap};
use puzzles::worksheet;

#[test]
fn test_part2() {
    // Matches the spacing/alignment from the sample worksheet input.
    let lines = vec![
        String::from("123 328  51 64"),
        String::from(" 45 64  387 23"),
        String::from("  6 98  215 314"),
    ];
    let ops = "*   +   *   +";

    let res = worksheet::part2(&lines, ops).unwrap();
    // 356 * 24 * 1 = 8544
    // 8 + 248 + 369 = 625
    // 175 * 581 * 32 = 3_253_600
    // 4 + 431 + 623 = 1058
    // Total = 3_263_827
    assert_eq!(res, 3_263_827);
}

#[test]
fn test_part2_simple() {
    // Two rows, plus operators, verifies span boundaries and vertical number building
    let lines = vec![String::from(" 9 12"), String::from("34  5")];
    let ops = "+   +"; // ops at indices 0 and 4

    // Column 0 range [0..4):
    // pos0 -> "3", pos1 -> "94", pos2 -> (skip), pos3 -> "1" => 3 + 94 + 1 = 98
    // Column 1 range [4..5):
    // pos4 -> "25" => 25
    // Total = 98 + 25 = 123
    let res = worksheet::part2(&lines, ops).unwrap();
    assert_eq!(res, 123);
}

#[test]
fn test_target_from_str() {
    assert_eq!(Machine::target_from_str("####").unwrap(), 0b1111);
    assert_eq!(Machine::target_from_str("#..#").unwrap(), 0b1001);
    assert_eq!(Machine::target_from_str("##..").unwrap(), 0b0011);
}

#[test]
fn test_transition_from_str() {
    assert_eq!(Machine::transition_from_str("(0,1,2)").unwrap(), 0b111);
    assert_eq!(Machine::transition_from_str("(0,1)").unwrap(), 0b11);
    assert_eq!(Machine::transition_from_str("(0)").unwrap(), 0b1);
    assert_eq!(Machine::transition_from_str("(0,2)").unwrap(), 0b101);
    assert_eq!(Machine::transition_from_str("(0,3,4)").unwrap(), 0b11001);
}

#[test]
fn test_joltage_lists() {
    assert_eq!(
        Machine::target_joltage_from_str("{3,5,4}").unwrap(),
        vec![3, 5, 4]
    );
    assert_eq!(
        Machine::joltage_transition_from_str("(0,2)").unwrap(),
        vec![0, 2]
    );
    assert_eq!(Machine::target_joltage_from_str("{}").unwrap(), Vec::<u16>::new());
}

#[test]
fn test_get_magnitude() {
    assert_eq!(get_magnitude("L68").unwrap(), 68);
    assert_eq!(get_magnitude("R48").unwrap(), 48);
    assert_eq!(get_magnitude("R-5").unwrap(), -5);
    assert!(get_magnitude("L").is_err());
    assert!(get_magnitude("Labc").is_err());
    assert!(get_magnitude("").is_err());
}

#[test]
fn test_dial_run() {
    // From 50, turning right by 50 lands exactly on zero.
    let moves = vec![(Spin::Right, 50)];
    assert_eq!(dial_run(&moves), (1, 1));

    // From 50, turning left by 150 passes zero twice and lands on it.
    let moves = vec![(Spin::Left, 150)];
    assert_eq!(dial_run(&moves), (1, 2));

    // A turn that does not reach zero counts nothing.
    let moves = vec![(Spin::Right, 10)];
    assert_eq!(dial_run(&moves), (0, 0));
}

#[test]
fn test_digitmax_part1() {
    let chars: Vec<char> = "398".chars().collect();
    assert_eq!(digitmax::part1(&chars), 98);
}

#[test]
fn test_digitmax_part2() {
    let chars: Vec<char> = "1234567890123".chars().collect();
    assert_eq!(digitmax::part2(&chars), 234567890123);
}

#[test]
fn test_range_parsing_and_overlap() {
    let r = Range::from_str("3-5").unwrap();
    assert_eq!(r, Range::new(3, 5));
    assert!(r.contains_val(3) && r.contains_val(5) && !r.contains_val(6));
    assert!(Range::from_str("3-x").is_err());

    let a = Range::new(1, 4);
    let b = Range::new(4, 9);
    assert_eq!(a.overlap(&b), Some(Range::new(1, 9)));
    let c = Range::new(6, 9);
    assert_eq!(a.overlap(&c), None);
    assert!(a.contains_range(&Range::new(2, 3)));
    assert_eq!(Range::new(2, 4).size(), 3);
    assert!(Range::new(2, 4).is_valid());
}

#[test]
fn test_produce_checker() {
    let mut checker = ProduceChecker::new();
    checker.add_range(&Range::new(3, 5));
    checker.add_range(&Range::new(10, 12));
    assert!(checker.check_produce(4));
    assert!(!checker.check_produce(7));
    assert_eq!(checker.count_all_fresh(), 6);
    checker.add_range(&Range::new(4, 11));
    assert!(checker.check_produce(7));
    assert_eq!(checker.count_all_fresh(), 10);
}

#[test]
fn test_update_from_reader_stops_at_empty_line() {
    let mut checker = ProduceChecker::new();
    let lines = vec![
        String::from("3-5"),
        String::from("10-12"),
        String::from(""),
        String::from("20-30"),
    ];
    assert!(checker.update_from_reader(&lines).is_ok());
    assert!(checker.check_produce(11));
    assert!(!checker.check_produce(25));
    assert_eq!(checker.count_all_fresh(), 6);
}

#[test]
fn test_update_from_reader_bad_line() {
    let mut checker = ProduceChecker::new();
    let lines = vec![String::from("3-5"), String::from("9-x")];
    assert!(checker.update_from_reader(&lines).is_err());
    assert!(checker.check_produce(4));
}

#[test]
fn test_worksheet_part1() {
    let rows = vec![vec![1usize, 2], vec![3, 4]];
    let ops = vec![String::from("*"), String::from("+")];
    assert_eq!(worksheet::part1(&rows, &ops), 9);
}

#[test]
fn test_rolls_block() {
    let map = RollMap {
        rolls: vec![
            Position { x: 0, y: 0 },
            Position { x: 0, y: 1 },
            Position { x: 1, y: 0 },
            Position { x: 1, y: 1 },
        ],
        x_size: 2,
        y_size: 2,
    };
    let acc = map.count_accessible();
    assert_eq!(acc.len(), 4);
    let mut map = map;
    assert_eq!(map.remove_accessible(), 4);
    assert!(map.rolls.is_empty());
}

#[test]
fn test_rolls_adjacency() {
    let map = RollMap {
        rolls: vec![Position { x: 0, y: 0 }],
        x_size: 2,
        y_size: 2,
    };
    let adj = map.get_adjacent(&Position { x: 0, y: 0 });
    assert_eq!(
        adj,
        vec![
            Position { x: 1, y: 0 },
            Position { x: 0, y: 1 },
            Position { x: 1, y: 1 },
        ]
    );
    assert!(map.is_valid(&Position { x: 1, y: 1 }));
    assert!(!map.is_valid(&Position { x: 2, y: 0 }));
}

#[test]
fn test_repdigits_part1() {
    // 11, 22, ..., 99 and 1010 are "doubled"; between 1 and 120 the
    // doubled numbers are 11,22,...,99 (sum 495).
    let ranges = vec![vec![1usize, 120]];
    assert_eq!(puzzles::repdigits::part1(&ranges), 495);
}

#[test]
fn test_repdigits_part2() {
    // Between 1 and 120: repeated-block numbers are 11,22,...,99
    // (block "d") and 111 (block "1"), 121 is not; 110 is not.
    let ranges = vec![vec![1usize, 120]];
    assert_eq!(puzzles::repdigits::part2(&ranges), 495 + 111);
}

#[test]
fn test_beam_step() {
    // One beam above a splitter at (2, 1) on a height-3 grid.
    let mut map = BeamMap {
        splitters: vec![puzzles::beams::Position(2, 1)],
        height: 3,
        beams: vec![(puzzles::beams::Position(2, 0), 1)],
        splits: 0,
    };
    let done = map.step();
    assert!(!done);
    assert_eq!(map.splits, 1);
    let mut sorted = map.beams.clone();
    sorted.sort_by_key(|e| (e.0 .0, e.0 .1));
    assert_eq!(sorted, vec![(puzzles::beams::Position(1, 1), 1), (puzzles::beams::Position(3, 1), 1)]);
    // Next step: both beams move to the bottom row, then off the grid.
    assert!(!map.step());
    assert!(!map.step());
    assert!(map.step());
    let total: usize = map.beams.iter().map(|e| e.1).sum();
    assert_eq!(total, 2);
}

#[test]
fn test_circuit_finder() {
    let mut cf = CircuitFinder::new(5);
    assert!(!cf.all_connected());
    cf.join(0, 1);
    cf.join(2, 3);
    assert_eq!(cf.num_circuits, 3);
    assert_eq!(cf.circuit_size(1), 2);
    assert_eq!(cf.circuit_size(4), 1);
    assert_eq!(cf.find(0), cf.find(1));
    assert_ne!(cf.find(0), cf.find(2));
    cf.join(1, 3);
    assert_eq!(cf.circuit_size(2), 4);
    cf.join(3, 4);
    assert!(cf.all_connected());
    assert_eq!(cf.circuit_size(0), 5);
}

#[test]
fn test_fewest_steps_to_target() {
    let m = Machine {
        target: 0b11,
        transitions: vec![0b01, 0b10],
        target_joltage: vec![],
        joltage_transitions: vec![],
    };
    assert_eq!(m.fewest_steps_to_target(), Some(2));

    let m = Machine {
        target: 0b01,
        transitions: vec![0b01, 0b10],
        target_joltage: vec![],
        joltage_transitions: vec![],
    };
    assert_eq!(m.fewest_steps_to_target(), Some(1));

    let m = Machine {
        target: 0,
        transitions: vec![],
        target_joltage: vec![],
        joltage_transitions: vec![],
    };
    assert_eq!(m.fewest_steps_to_target(), Some(0));

    // Pressing (0,1) any number of times only ever toggles both lights
    // together, so a single lit light is unreachable.
    let m = Machine {
        target: 0b01,
        transitions: vec![0b11],
        target_joltage: vec![],
        joltage_transitions: vec![],
    };
    assert_eq!(m.fewest_steps_to_target(), None);
}

#[test]
fn test_presents_fitting() {
    // Shape sizes 4 and 6; a 5x4=20 tree asking for 2 and 1 needs 14
    // and fits; a 3x2=6 tree asking for 1 and 1 needs 10 and does not.
    let sizes = vec![4usize, 6];
    let trees = vec![(20usize, vec![2usize, 1]), (6usize, vec![1usize, 1])];
    assert_eq!(puzzles::presents::count_fitting(&sizes, &trees), 1);
}
