use quests::ec2024_quest01::{p1, p2, p3, parse_input1, parse_input2, parse_input3};

#[test]
fn quest01_test_p1() {
    let input = "ABBAC";
    assert_eq!(p1(&parse_input1(input)), 5);
}

#[test]
fn quest01_test_p3() {
    let input = "xBxAAABCDxCC";
    assert_eq!(p3(&parse_input3(input)), 30);
}

#[test]
fn quest01_pairs() {
    let input = "AxBC";
    assert_eq!(p2(&parse_input2(input)), 0 + 0 + 1 + 3 + 2);
}

#[test]
fn template_test_p1() {
    let input = "123\n456\n789\n";
    assert_eq!(quests::template::p1(input), 3);
}

#[test]
fn template_test_p2() {
    let input = "123\n456\n789\n";
    assert_eq!(quests::template::p2(input), 3);
}

#[test]
fn template_test_p3() {
    let input = "123\n456\n789\n";
    assert_eq!(quests::template::p3(input), 3);
}

#[test]
fn quest02_test_p1() {
    let runes: Vec<Vec<u8>> = ["THE", "OWE", "MES", "ROD", "HER"]
        .iter()
        .map(|s| s.bytes().collect())
        .collect();
    let inscription: Vec<Vec<u8>> = "AWAKEN THE POWER ADORNED WITH THE FLAMES BRIGHT IRE"
        .split_ascii_whitespace()
        .map(|s| s.bytes().collect())
        .collect();
    assert_eq!(quests::ec2024_quest02::p1(&runes, &inscription), 4);
}

#[test]
fn quest02_find_sub() {
    let hay: Vec<u8> = b"POWER".to_vec();
    assert!(quests::ec2024_quest02::find_sub(&hay, &b"OWE".to_vec()));
    assert!(!quests::ec2024_quest02::find_sub(&hay, &b"OWL".to_vec()));
    assert!(quests::ec2024_quest02::find_sub(&hay, &Vec::new()));
}

#[test]
fn quest13_spin_wheel() {
    // One forward range of three slots: four ticks wrap to the second slot.
    let wheel = vec![(1u64, 3u64, false)];
    assert_eq!(quests::ec2025_quest13::spin_wheel(&wheel, 4), 2);
    // A backward range counts down from its top.
    let wheel2 = vec![(5u64, 7u64, true)];
    assert_eq!(quests::ec2025_quest13::spin_wheel(&wheel2, 1), 6);
    // Walking into a later segment.
    let wheel3 = vec![(1u64, 2u64, false), (10u64, 11u64, true)];
    assert_eq!(quests::ec2025_quest13::spin_wheel(&wheel3, 2), 11);
}

#[test]
fn quest16_factors() {
    assert_eq!(quests::ec2025_quest16::factors(12), vec![1, 2, 3, 4, 6, 12]);
    assert_eq!(quests::ec2025_quest16::factors(1), vec![1]);
    assert_eq!(quests::ec2025_quest16::factors(9), vec![1, 3, 9]);
}

#[test]
fn quest06_mentors() {
    let mut m = quests::sol2025_quest06::Mentors::new();
    m.add(b'A', 3);
    m.add(b'B', 2);
    m.add(b'Z', 9);
    m.sub(b'A', 1);
    assert_eq!(m.a, 2);
    assert_eq!(m.b, 2);
    assert_eq!(m.c, 0);
}

#[test]
fn quest08_overlap() {
    // Chords on the peg circle: (1, 5) crosses (0, 4).
    assert!(quests::sol2025_quest08::overlap((0, 4), (1, 5)));
    assert!(!quests::sol2025_quest08::overlap((0, 1), (2, 3)));
    assert!(quests::sol2025_quest08::overlap((2, 6), (2, 6)));
    assert!(quests::sol2025_quest08::overlap((2, 6), (6, 2)));
}

#[test]
fn quest10_square_moves() {
    let sq = quests::ec2025_quest10::Square::new(0, 0);
    let moves = sq.neighbors(8, 8);
    assert_eq!(moves.len(), 2);
    let sq2 = quests::ec2025_quest10::Square::new(4, 4);
    assert_eq!(sq2.neighbors(8, 8).len(), 8);
}

#[test]
fn quest15_point_ops() {
    let p = quests::ec2025_quest15::Point::new(3, 4);
    let q = quests::ec2025_quest15::Point::new(1, 1);
    assert_eq!(p.distance(&q), 5);
    let up = quests::ec2025_quest15::Point::new(0, -1);
    let left = up.turn(b'L');
    assert_eq!((left.x, left.y), (-1, 0));
    let right = up.turn(b'R');
    assert_eq!((right.x, right.y), (1, 0));
    assert_eq!(p.neighbors().len(), 8);
}

#[test]
fn text_parsing() {
    assert_eq!(quests::text::parse_u64(&b"123".to_vec()), Some(123));
    assert_eq!(quests::text::parse_u64(&b"".to_vec()), None);
    assert_eq!(quests::text::parse_u64(&b"12a".to_vec()), None);
    assert_eq!(quests::text::parse_i64(&b"-25".to_vec()), Some(-25));
    assert_eq!(quests::text::parse_i64(&b"17".to_vec()), Some(17));
    assert_eq!(quests::text::parse_i64(&b"-".to_vec()), None);
    let fields = quests::text::fields_of(&b"  a  bb c ".to_vec());
    assert_eq!(fields, vec![b"a".to_vec(), b"bb".to_vec(), b"c".to_vec()]);
    assert_eq!(quests::text::dec_digits(2026), b"2026".to_vec());
    assert_eq!(quests::text::dec_digits(0), b"0".to_vec());
}
