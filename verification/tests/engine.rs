use zoner::arena::{Arena, Direction as ArenaDirection};
use zoner::instruction::{Instruction, Node};
use zoner::ratio::Ratio;
use zoner::zone::{Direction, Zone};

#[test]
fn zone_test_horizontal_half() {
    let expected = vec![
        Zone { x: 0, y: 0, width: 50, height: 100 },
        Zone { x: 50, y: 0, width: 50, height: 100 },
    ];
    let actual: Vec<_> = Zone::full().slice(
        &[Ratio::from_int(1), Ratio::from_int(1)],
        Direction::Horizontal,
    );
    assert_eq!(expected, actual);
}

#[test]
fn zone_test_vertical_three() {
    let expected = vec![
        Zone { x: 0, y: 0, width: 100, height: 34 },
        Zone { x: 0, y: 34, width: 100, height: 33 },
        Zone { x: 0, y: 67, width: 100, height: 33 },
    ];
    let actual: Vec<_> = Zone::full().slice(
        &[Ratio::from_int(1), Ratio::from_int(1), Ratio::from_int(1)],
        Direction::Vertical,
    );
    assert_eq!(expected, actual);
}

#[test]
fn zone_test_horizontal_three() {
    let expected = vec![
        Zone { x: 0, y: 0, width: 34, height: 100 },
        Zone { x: 34, y: 0, width: 33, height: 100 },
        Zone { x: 67, y: 0, width: 33, height: 100 },
    ];
    let actual: Vec<_> = Zone::full().slice(
        &[Ratio::from_int(1), Ratio::from_int(1), Ratio::from_int(1)],
        Direction::Horizontal,
    );
    assert_eq!(expected, actual);
}

#[test]
fn arena_test_horizontal_half() {
    let expected = vec![
        Arena { x: 0, y: 0, width: 50, height: 100 },
        Arena { x: 50, y: 0, width: 50, height: 100 },
    ];
    let actual: Vec<_> = Arena::full().slice(
        &[Ratio::from_int(1), Ratio::from_int(1)],
        ArenaDirection::Horizontal,
    );
    assert_eq!(expected, actual);
}

#[test]
fn arena_test_vertical_three() {
    let expected = vec![
        Arena { x: 0, y: 0, width: 100, height: 34 },
        Arena { x: 0, y: 34, width: 100, height: 33 },
        Arena { x: 0, y: 67, width: 100, height: 33 },
    ];
    let actual: Vec<_> = Arena::full().slice(
        &[Ratio::from_int(1), Ratio::from_int(1), Ratio::from_int(1)],
        ArenaDirection::Vertical,
    );
    assert_eq!(expected, actual);
}

#[test]
fn test_leaf() {
    let instruction = Instruction::Leaf;
    let expected = vec![Zone::full()];
    let actual = instruction.slice(Zone::full());
    assert_eq!(expected, actual);
}

#[test]
fn test_shallow_split() {
    let instruction = Instruction::Split {
        direction: Direction::Vertical,
        children: vec![
            Node { ratio: Ratio::from_int(3), instruction: Instruction::Leaf },
            Node { ratio: Ratio::from_int(1), instruction: Instruction::Leaf },
        ],
    };
    let expected = vec![
        Zone { x: 0, y: 0, width: 100, height: 75 },
        Zone { x: 0, y: 75, width: 100, height: 25 },
    ];
    let actual = instruction.slice(Zone::full());
    assert_eq!(expected, actual);
}

#[test]
fn test_deep_split() {
    let instruction = Instruction::Split {
        direction: Direction::Horizontal,
        children: vec![
            Node { ratio: Ratio::from_int(1), instruction: Instruction::Leaf },
            Node {
                ratio: Ratio::from_int(2),
                instruction: Instruction::Split {
                    direction: Direction::Vertical,
                    children: vec![
                        Node { ratio: Ratio::from_int(1), instruction: Instruction::Leaf },
                        Node { ratio: Ratio::from_int(1), instruction: Instruction::Leaf },
                    ],
                },
            },
            Node { ratio: Ratio::from_int(1), instruction: Instruction::Leaf },
        ],
    };
    let expected = vec![
        Zone { x: 0, y: 0, width: 25, height: 100 },
        Zone { x: 25, y: 0, width: 50, height: 50 },
        Zone { x: 25, y: 50, width: 50, height: 50 },
        Zone { x: 75, y: 0, width: 25, height: 100 },
    ];
    let actual = instruction.slice(Zone::full());
    assert_eq!(expected, actual);
}

#[test]
fn test_three_split() {
    let instruction = Instruction::Split {
        direction: Direction::Horizontal,
        children: vec![
            Node { ratio: Ratio::from_int(1), instruction: Instruction::Leaf },
            Node {
                ratio: Ratio::from_int(1),
                instruction: Instruction::Split {
                    direction: Direction::Vertical,
                    children: vec![
                        Node { ratio: Ratio::from_int(1), instruction: Instruction::Leaf },
                        Node { ratio: Ratio::from_int(1), instruction: Instruction::Leaf },
                    ],
                },
            },
        ],
    };
    let expected = vec![
        Zone { x: 0, y: 0, width: 50, height: 100 },
        Zone { x: 50, y: 0, width: 50, height: 50 },
        Zone { x: 50, y: 50, width: 50, height: 50 },
    ];
    let actual = instruction.slice(Zone::full());
    assert_eq!(expected, actual);
}

#[test]
fn test_zero_ratio_duplicates_collapse() {
    // Two children of ratio zero receive the same empty rectangle; the set
    // semantics collapse them into one entry.
    let instruction = Instruction::Split {
        direction: Direction::Horizontal,
        children: vec![
            Node { ratio: Ratio::from_int(0), instruction: Instruction::Leaf },
            Node { ratio: Ratio::from_int(0), instruction: Instruction::Leaf },
            Node { ratio: Ratio::from_int(1), instruction: Instruction::Leaf },
        ],
    };
    assert!(instruction.well_formed());
    let expected = vec![
        Zone { x: 0, y: 0, width: 0, height: 100 },
        Zone { x: 0, y: 0, width: 100, height: 100 },
    ];
    let actual = instruction.slice(Zone::full());
    assert_eq!(expected, actual);
}

#[test]
fn test_zero_ratio_sum_rejected() {
    // The chosen policy for an all-zero split: it is not well formed, and
    // the engine's precondition excludes it instead of dividing by zero.
    let instruction = Instruction::Split {
        direction: Direction::Vertical,
        children: vec![
            Node { ratio: Ratio::from_int(0), instruction: Instruction::Leaf },
            Node { ratio: Ratio::from_int(0), instruction: Instruction::Leaf },
        ],
    };
    assert!(!instruction.well_formed());
    let positive = Instruction::Split {
        direction: Direction::Vertical,
        children: vec![Node { ratio: Ratio::from_int(2), instruction: Instruction::Leaf }],
    };
    assert!(positive.well_formed());
    assert!(Instruction::Leaf.well_formed());
}

#[test]
fn test_tiling_area_concrete() {
    let instruction = Instruction::Split {
        direction: Direction::Horizontal,
        children: vec![
            Node { ratio: Ratio::from_int(1), instruction: Instruction::Leaf },
            Node {
                ratio: Ratio::from_int(2),
                instruction: Instruction::Split {
                    direction: Direction::Vertical,
                    children: vec![
                        Node { ratio: Ratio::from_int(3), instruction: Instruction::Leaf },
                        Node { ratio: Ratio::from_int(4), instruction: Instruction::Leaf },
                    ],
                },
            },
            Node { ratio: Ratio::from_int(5), instruction: Instruction::Leaf },
        ],
    };
    let zones = instruction.slice(Zone::full());
    let total: u32 = zones
        .iter()
        .map(|z| u32::from(z.width) * u32::from(z.height))
        .sum();
    assert_eq!(total, 100 * 100);
}

#[test]
fn test_non_overlap_concrete() {
    let instruction = Instruction::Split {
        direction: Direction::Vertical,
        children: vec![
            Node { ratio: Ratio::from_int(1), instruction: Instruction::Leaf },
            Node {
                ratio: Ratio::from_int(1),
                instruction: Instruction::Split {
                    direction: Direction::Horizontal,
                    children: vec![
                        Node { ratio: Ratio::from_int(1), instruction: Instruction::Leaf },
                        Node { ratio: Ratio::from_int(2), instruction: Instruction::Leaf },
                        Node { ratio: Ratio::from_int(4), instruction: Instruction::Leaf },
                    ],
                },
            },
        ],
    };
    let zones = instruction.slice(Zone::full());
    for (i, a) in zones.iter().enumerate() {
        for (j, b) in zones.iter().enumerate() {
            if i != j {
                let x_apart = a.x + a.width <= b.x || b.x + b.width <= a.x;
                let y_apart = a.y + a.height <= b.y || b.y + b.height <= a.y;
                let a_empty = a.width == 0 || a.height == 0;
                let b_empty = b.width == 0 || b.height == 0;
                assert!(x_apart || y_apart || a_empty || b_empty);
            }
        }
    }
}

#[test]
fn test_default_is_full() {
    assert_eq!(Zone::default(), Zone::full());
    assert_eq!(Arena::default(), Arena::full());
    assert_eq!(Instruction::default(), Instruction::Leaf);
}
