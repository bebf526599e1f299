use zoner::instruction::{Instruction, Node};
use zoner::parser::{parse, ParserError};
use zoner::ratio::Ratio;
use zoner::zone::{Direction, Zone};

#[test]
fn test_parse() {
    let actual = parse("h(1, 2: v(3, 4), 5)").unwrap();
    let expected = Instruction::Split {
        direction: Direction::Horizontal,
        children: vec![
            Node { ratio: Ratio::from_int(1), instruction: Instruction::Leaf },
            Node {
                ratio: Ratio::from_int(2),
                instruction: Instruction::Split {
                    direction: Direction::Vertical,
                    children: vec![
                        Node { ratio: Ratio::from_int(3), instruction: Instruction::Leaf },
                        Node { ratio: Ratio::from_int(4), instruction: Instruction::Leaf },
                    ],
                },
            },
            Node { ratio: Ratio::from_int(5), instruction: Instruction::Leaf },
        ],
    };
    assert_eq!(expected, actual);
}

#[test]
fn test_parse_round_trip_partition() {
    // The worked example: parse the layout, partition the canvas, and check
    // the exact rectangles the remainder algorithm must produce.
    let instruction = parse("h(1, 2: v(3, 4), 5)").unwrap();
    assert!(instruction.well_formed());
    let zones = instruction.slice(Zone::full());
    let expected = vec![
        Zone { x: 0, y: 0, width: 13, height: 100 },
        Zone { x: 13, y: 0, width: 25, height: 43 },
        Zone { x: 13, y: 43, width: 25, height: 57 },
        Zone { x: 38, y: 0, width: 62, height: 100 },
    ];
    assert_eq!(expected, zones);
}

#[test]
fn test_parse_bare_leaf_rejected() {
    // The grammar has no bare-leaf form at the top level.
    assert!(matches!(parse("5"), Err(ParserError::Mismatch { .. })));
}

#[test]
fn test_parse_trailing_input_rejected() {
    assert_eq!(parse("h(1,2)extra"), Err(ParserError::MoreThanOne));
}

#[test]
fn test_parse_trailing_whitespace_accepted() {
    let a = parse(" h( 1 ,\t2 ) \n").unwrap();
    let b = parse("h(1,2)").unwrap();
    assert_eq!(a, b);
}

#[test]
fn test_parse_decimal_ratios() {
    let actual = parse("v(1.5, 0.5)").unwrap();
    let expected = Instruction::Split {
        direction: Direction::Vertical,
        children: vec![
            Node { ratio: Ratio { num: 15, scale: 1 }, instruction: Instruction::Leaf },
            Node { ratio: Ratio { num: 5, scale: 1 }, instruction: Instruction::Leaf },
        ],
    };
    assert_eq!(expected, actual);
    let zones = actual.slice(Zone::full());
    let expected_zones = vec![
        Zone { x: 0, y: 0, width: 100, height: 75 },
        Zone { x: 0, y: 75, width: 100, height: 25 },
    ];
    assert_eq!(expected_zones, zones);
}

#[test]
fn test_parse_grammar_mismatches() {
    assert!(matches!(parse(""), Err(ParserError::Mismatch { .. })));
    assert!(matches!(parse("x(1)"), Err(ParserError::Mismatch { .. })));
    assert!(matches!(parse("h()"), Err(ParserError::Mismatch { .. })));
    assert!(matches!(parse("h(1,)"), Err(ParserError::Mismatch { .. })));
    assert!(matches!(parse("h(1"), Err(ParserError::Mismatch { .. })));
    assert!(matches!(parse("h 1,2)"), Err(ParserError::Mismatch { .. })));
    assert!(matches!(parse("h(1.)"), Err(ParserError::Mismatch { .. })));
    assert!(matches!(parse("h(1:)"), Err(ParserError::Mismatch { .. })));
}

#[test]
fn test_parse_ratio_out_of_range() {
    // One numeral at the cap, one with too many fraction digits.
    assert!(matches!(
        parse("h(100000000000000)"),
        Err(ParserError::Mismatch { .. })
    ));
    assert!(matches!(
        parse("h(0.123456)"),
        Err(ParserError::Mismatch { .. })
    ));
    // The largest representable numeral still parses.
    assert!(parse("h(99999999999999)").is_ok());
    assert!(parse("h(0.12345)").is_ok());
}

#[test]
fn test_parse_zero_ratio_sum_policy() {
    // "h(0, 0)" is grammatical, but the engine's validity check refuses the
    // degenerate all-zero split.
    let t = parse("h(0, 0)").unwrap();
    assert!(!t.well_formed());
}

#[test]
fn test_parse_nested_depth() {
    let t = parse("h(1: v(1: h(1, 1), 2), 3)").unwrap();
    assert!(t.well_formed());
    let zones = t.slice(Zone::full());
    let total: u32 = zones
        .iter()
        .map(|z| u32::from(z.width) * u32::from(z.height))
        .sum();
    assert_eq!(total, 100 * 100);
}
