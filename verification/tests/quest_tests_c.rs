use quests::ec2025_quest05::Fishbone;
use quests::sol2024_quest05::step;
use quests::sol2025_quest02::{cycle, Complex};
use quests::story1_quest03::{norm, Point};

#[test]
fn fishbone_build() {
    // 5 opens a segment, 3 hooks left, 7 hooks right; the middles read 5.
    let fb = Fishbone::new(1, &vec![5, 3, 7]);
    assert_eq!(fb.quality(), 5);
    assert_eq!(fb.numbers(), vec![357]);
    // An equal value fits nowhere and opens a second segment.
    let fb2 = Fishbone::new(2, &vec![5, 5]);
    assert_eq!(fb2.quality(), 55);
    assert_eq!(fb2.numbers(), vec![5, 5]);
}

#[test]
fn fishbone_segments() {
    let mut seg = quests::ec2025_quest05::Segment::new(4);
    assert!(seg.try_place(2));
    assert!(!seg.try_place(1));
    assert!(seg.try_place(9));
    assert_eq!(seg.number(), 249);
}

#[test]
fn clapper_step() {
    let mut cols = vec![
        vec![2u64, 3, 4, 5],
        vec![3, 4, 5, 2],
        vec![4, 5, 2, 3],
        vec![5, 2, 3, 4],
    ];
    // The front 2 leaves the first column and lands one place into the
    // second; the fronts then read 3, 3, 4, 5.
    assert_eq!(step(&mut cols, 0), 3345);
    assert_eq!(cols[0], vec![3, 4, 5]);
    assert_eq!(cols[1], vec![3, 2, 4, 5, 2]);
}

#[test]
fn orbit_checks() {
    assert!(cycle(Complex::new(0, 0), 0, 0));
    assert!(!cycle(Complex::new(1_000_001, 0), 0, 0));
}

#[test]
fn norm_cases() {
    assert_eq!(norm(7, 3), 1);
    assert_eq!(norm(-7, 3), 2);
    assert_eq!(norm(-6, 3), 0);
}

#[test]
fn snail_positions() {
    let p = Point { x: 3, y: 4 };
    assert_eq!(p.disc(), 6);
    assert_eq!(p.value(), 403);
}

#[test]
fn remainder_trail() {
    // Powers of four under eleven: 4, 5, 9; newest first reads 954.
    assert_eq!(quests::story1_quest01::eni(4, 3, 11), 954);
    assert_eq!(quests::story1_quest01::eni(2, 1, 100), 2);
}

#[test]
fn quest14_test_p1() {
    let input = ".#.##.\n##..#.\n..##.#\n.#.##.\n.###..\n###.##";
    assert_eq!(quests::ec2025_quest14::p1(input).unwrap(), 200);
}

#[test]
fn quest14_test_p2() {
    let input = ".#.##.\n##..#.\n..##.#\n.#.##.\n.###..\n###.##";
    assert_eq!(quests::ec2025_quest14::p2(input).unwrap(), 39349);
}

#[test]
fn automaton_step() {
    // One active centre: the edge midpoints see zero active diagonals and
    // flip on; the corners see one and stay off; the centre sees zero and
    // flips off.
    let grid = quests::ec2025_quest14::parse("...\n.#.\n...");
    let stepped = quests::ec2025_quest14::next(&grid);
    assert_eq!(quests::ec2025_quest14::value(&stepped), 4);
    assert!(quests::ec2025_quest14::center_matches(
        &stepped,
        &quests::ec2025_quest14::parse(".")
    ));
    assert!(!quests::ec2025_quest14::center_matches(
        &stepped,
        &quests::ec2025_quest14::parse("#")
    ));
}

fn sequences(input: &str) -> Vec<quests::ec2025_quest09::Sequence> {
    input
        .lines()
        .map(|l| {
            let (id, seq) = l.split_once(':').unwrap();
            quests::ec2025_quest09::Sequence {
                id: id.parse().unwrap(),
                bases: seq.bytes().collect(),
            }
        })
        .collect()
}

#[test]
fn quest09_test_p1() {
    let input = sequences(
        "1:CAAGCGCTAAGTTCGCTGGATGTGTGCCCGCG\n2:CTTGAATTGGGCCGTTTACCTGGTTTAACCAT\n3:CTAGCGCTGAGCTGGCTGCCTGGTTGACCGCG",
    );
    assert_eq!(quests::ec2025_quest09::p1(&input).unwrap(), 414);
}

#[test]
fn quest09_test_p2() {
    let input = sequences(
        "1:GCAGGCGAGTATGATACCCGGCTAGCCACCCC\n2:TCTCGCGAGGATATTACTGGGCCAGACCCCCC\n3:GGTGGAACATTCGAAAGTTGCATAGGGTGGTG\n4:GCTCGCGAGTATATTACCGAACCAGCCCCTCA\n5:GCAGCTTAGTATGACCGCCAAATCGCGACTCA\n6:AGTGGAACCTTGGATAGTCTCATATAGCGGCA\n7:GGCGTAATAATCGGATGCTGCAGAGGCTGCTG",
    );
    assert_eq!(quests::ec2025_quest09::p2(&input).unwrap(), 1245);
}

#[test]
fn maze_walls() {
    // One instruction: turn right from the upward start and walk two cells.
    let (walls, corners, end) = quests::ec2025_quest15::build_walls(&vec![(b'R', 2)]);
    assert_eq!(walls.len(), 1);
    assert_eq!((walls[0].0.x, walls[0].0.y), (1, 0));
    assert_eq!((walls[0].1.x, walls[0].1.y), (1, 0));
    assert_eq!(corners.len(), 2);
    assert_eq!((end.x, end.y), (2, 0));
    // The segment blocks a move across it and allows one beside it.
    let from = quests::ec2025_quest15::Point::new(0, 0);
    let across = quests::ec2025_quest15::Point::new(2, 0);
    let beside = quests::ec2025_quest15::Point::new(0, 1);
    assert!(!quests::ec2025_quest15::valid_move(&walls, from, across));
    assert!(quests::ec2025_quest15::valid_move(&walls, from, beside));
}
