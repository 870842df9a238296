use quests::ec2025_quest19 as q19;

#[test]
fn quest18_test_p1() {
    let input = "Plant 1 with thickness 1:
- free branch with thickness 1

Plant 2 with thickness 1:
- free branch with thickness 1

Plant 3 with thickness 1:
- free branch with thickness 1

Plant 4 with thickness 17:
- branch to Plant 1 with thickness 15
- branch to Plant 2 with thickness 3

Plant 5 with thickness 24:
- branch to Plant 2 with thickness 11
- branch to Plant 3 with thickness 13

Plant 6 with thickness 15:
- branch to Plant 3 with thickness 14

Plant 7 with thickness 10:
- branch to Plant 4 with thickness 15
- branch to Plant 5 with thickness 21
- branch to Plant 6 with thickness 34";
    assert_eq!(quests::ec2025_quest18::p1(input).unwrap(), 774);
}

#[test]
fn quest18_test_p2() {
    let input = "Plant 1 with thickness 1:
- free branch with thickness 1

Plant 2 with thickness 1:
- free branch with thickness 1

Plant 3 with thickness 1:
- free branch with thickness 1

Plant 4 with thickness 10:
- branch to Plant 1 with thickness -25
- branch to Plant 2 with thickness 17
- branch to Plant 3 with thickness 12

Plant 5 with thickness 14:
- branch to Plant 1 with thickness 14
- branch to Plant 2 with thickness -26
- branch to Plant 3 with thickness 15

Plant 6 with thickness 150:
- branch to Plant 4 with thickness 5
- branch to Plant 5 with thickness 6


1 0 1
0 0 1
0 1 1";
    assert_eq!(quests::ec2025_quest18::p2(input).unwrap(), 324);
}

#[test]
fn quest18_test_p3() {
    let input = "Plant 1 with thickness 1:
- free branch with thickness 1

Plant 2 with thickness 1:
- free branch with thickness 1

Plant 3 with thickness 1:
- free branch with thickness 1

Plant 4 with thickness 1:
- free branch with thickness 1

Plant 5 with thickness 8:
- branch to Plant 1 with thickness 11
- branch to Plant 2 with thickness 13
- branch to Plant 3 with thickness 9

Plant 6 with thickness 7:
- branch to Plant 4 with thickness -14
- branch to Plant 4 with thickness -9

Plant 7 with thickness 23:
- branch to Plant 5 with thickness 17
- branch to Plant 6 with thickness 18


0 1 0 0
0 1 0 1
1 1 1 0";
    assert_eq!(quests::ec2025_quest18::p3(input).unwrap(), 680);
}

#[test]
fn quest19_test_p1() {
    let input = "7,7,2\n12,0,4\n15,5,3\n24,1,6\n28,5,5\n40,8,2";
    assert_eq!(q19::p1(input).unwrap(), 24);
}

#[test]
fn quest19_test_p2() {
    let input = "7,7,2\n7,1,3\n12,0,4\n15,5,3\n24,1,6\n28,5,5\n40,3,3\n40,8,2";
    assert_eq!(q19::p2(input).unwrap(), 22);
}

#[test]
fn quest19_test_p3() {
    let input = "7,7,2\n7,1,3\n12,0,4\n15,5,3\n24,1,6\n28,5,5\n40,3,3\n40,8,2";
    assert_eq!(q19::p3(input).unwrap(), 22);
}

#[test]
fn quest19_ranges() {
    let a = q19::Range::new(2, 6);
    let b = q19::Range::new(4, 9);
    let i = a.intersection(&b);
    assert_eq!((i.start, i.end), (4, 6));
    assert!(!i.is_empty());
    assert!(q19::Range::new(5, 3).is_empty());
    let e = a.expand(2);
    assert_eq!((e.start, e.end), (0, 8));
}

#[test]
fn quest19_bad_input() {
    assert_eq!(q19::p1("7,7\n1,2,3"), None);
    assert_eq!(q19::p1("a,b,c"), None);
}

#[test]
fn quest20_test_p1() {
    let input = "T#TTT###T##\n.##TT#TT##.\n..T###T#T..\n...##TT#...\n....T##....\n.....#.....";
    assert_eq!(quests::ec2025_quest20::p1(input).unwrap(), 7);
}

#[test]
fn quest20_test_p2() {
    let input = "TTTTTTTTTTTTTTTTT\n.TTTT#T#T#TTTTTT.\n..TT#TTTETT#TTT..\n...TT#T#TTT#TT...\n....TTT#T#TTT....\n.....TTTTTT#.....\n......TT#TT......\n.......#TT.......\n........S........";
    assert_eq!(quests::ec2025_quest20::p2(input).unwrap(), 32);
}

#[test]
fn quest20_test_p3() {
    let input = "T####T#TTT##T##T#T#\n.T#####TTTT##TTT##.\n..TTTT#T###TTTT#T..\n...T#TTT#ETTTT##...\n....#TT##T#T##T....\n.....#TT####T#.....\n......T#TT#T#......\n.......T#TTT.......\n........TT#........\n.........S.........";
    assert_eq!(quests::ec2025_quest20::p3(input).unwrap(), 23);
}

#[test]
fn test_p1() {
    let input = "*.*.*.*.*.*.*.*.*\n.*.*.*.*.*.*.*.*.\n*.*.*...*.*...*..\n.*.*.*.*.*...*.*.\n*.*.....*...*.*.*\n.*.*.*.*.*.*.*.*.\n*...*...*.*.*.*.*\n.*.*.*.*.*.*.*.*.\n*.*.*...*.*.*.*.*\n.*...*...*.*.*.*.\n*.*.*.*.*.*.*.*.*\n.*.*.*.*.*.*.*.*.\n\nRRRLRLRRRRRL\nLLLLRLRRRRRR\nRLLLLLRLRLRL\nLRLLLRRRLRLR\nLLRLLRLLLRRL\nLRLRLLLRRRRL\nLRLLLLLLRLLL\nRRLLLRLLRLRR\nRLLLLLRLLLRL";
    assert_eq!(quests::story2_quest01::p1(input).unwrap(), 26);
}

#[test]
fn test_p2() {
    let input = "*.*.*.*.*.*.*.*.*.*.*.*.*\n.*.*.*.*.*.*.*.*.*.*.*.*.\n..*.*.*.*...*.*...*.*.*..\n.*...*.*.*.*.*.*.....*.*.\n*.*...*.*.*.*.*.*...*.*.*\n.*.*.*.*.*.*.*.*.......*.\n*.*.*.*.*.*.*.*.*.*...*..\n.*.*.*.*.*.*.*.*.....*.*.\n*.*...*.*.*.*.*.*.*.*....\n.*.*.*.*.*.*.*.*.*.*.*.*.\n*.*.*.*.*.*.*.*.*.*.*.*.*\n.*.*.*.*.*.*.*.*.*...*.*.\n*.*.*.*.*.*.*.*.*...*.*.*\n.*.*.*.*.*.*.*.*.....*.*.\n*.*.*.*.*.*.*.*...*...*.*\n.*.*.*.*.*.*.*.*.*.*.*.*.\n*.*.*...*.*.*.*.*.*.*.*.*\n.*...*.*.*.*...*.*.*...*.\n*.*.*.*.*.*.*.*.*.*.*.*.*\n.*.*.*.*.*.*.*.*.*.*.*.*.\n\nRRRLLRRRLLRLRRLLLRLR\nRRRRRRRRRRLRRRRRLLRR\nLLLLLLLLRLRRLLRRLRLL\nRRRLLRRRLLRLLRLLLRRL\nRLRLLLRRLRRRLRRLRRRL\nLLLLLLLLRLLRRLLRLLLL\nLRLLRRLRLLLLLLLRLRRL\nLRLLRRLLLRRRRRLRRLRR\nLRLLRRLRLLRLRRLLLRLL\nRLLRRRRLRLRLRLRLLRRL";
    assert_eq!(quests::story2_quest01::p2(input).unwrap(), 115);
}

#[test]
fn test_p3() {
    let input = "*.*.*.*.*.*.*.*.*\n.*.*.*.*.*.*.*.*.\n*.*.*...*.*...*..\n.*.*.*.*.*...*.*.\n*.*.....*...*.*.*\n.*.*.*.*.*.*.*.*.\n*...*...*.*.*.*.*\n.*.*.*.*.*.*.*.*.\n*.*.*...*.*.*.*.*\n.*...*...*.*.*.*.\n*.*.*.*.*.*.*.*.*\n.*.*.*.*.*.*.*.*.\n\nRRRLRLRRRRRL\nLLLLRLRRRRRR\nRLLLLLRLRLRL\nLRLLLRRRLRLR\nLLRLLRLLLRRL\nLRLRLLLRRRRL";
    assert_eq!(quests::story2_quest01::p3(input).unwrap(), "13 43");
}

#[test]
fn quest01_test_p3_bigger() {
    let input = "*.*.*.*.*.*.*.*.*.*.*.*.*\n.*.*.*.*.*.*.*.*.*.*.*.*.\n..*.*.*.*...*.*...*.*.*..\n.*...*.*.*.*.*.*.....*.*.\n*.*...*.*.*.*.*.*...*.*.*\n.*.*.*.*.*.*.*.*.......*.\n*.*.*.*.*.*.*.*.*.*...*..\n.*.*.*.*.*.*.*.*.....*.*.\n*.*...*.*.*.*.*.*.*.*....\n.*.*.*.*.*.*.*.*.*.*.*.*.\n*.*.*.*.*.*.*.*.*.*.*.*.*\n.*.*.*.*.*.*.*.*.*...*.*.\n*.*.*.*.*.*.*.*.*...*.*.*\n.*.*.*.*.*.*.*.*.....*.*.\n*.*.*.*.*.*.*.*...*...*.*\n.*.*.*.*.*.*.*.*.*.*.*.*.\n*.*.*...*.*.*.*.*.*.*.*.*\n.*...*.*.*.*...*.*.*...*.\n*.*.*.*.*.*.*.*.*.*.*.*.*\n.*.*.*.*.*.*.*.*.*.*.*.*.\n\nRRRLLRRRLLRLRRLLLRLR\nRRRRRRRRRRLRRRRRLLRR\nLLLLLLLLRLRRLLRRLRLL\nRRRLLRRRLLRLLRLLLRRL\nRLRLLLRRLRRRLRRLRRRL\nLLLLLLLLRLLRRLLRLLLL";
    assert_eq!(quests::story2_quest01::p3(input).unwrap(), "25 66");
}

#[test]
fn test_p3_biggest() {
    let input = "*.*.*.*.*.*.*.*.*.*.*.*.*.*.*.*.*.*.*.*\n.*.*.*.*.*.*.*.*.*.*.*.*.*.*.*.*.*.*.*.\n..*.*.*.*.*.*.........*.*.*.*.....*.*.*\n.*.*...*.*.*.*.*.*.*.*.*.*.*...*.*.*.*.\n*.*.*.*...*.*.*.*.*.....*.*.*.*...*.*..\n.*...*.*...*.*.*.*.*.*.*.....*.*.*.*.*.\n*.*.*.*.*.....*.*.*.*.*.*.*.*.*.*.*.*.*\n.*.*.*.*.*.*...*.*.*.*.....*.*.*.*...*.\n*.*...*.*.*.*.*.*.*.*...*.*.*...*.*.*.*\n.*...*.*.*.*.*.*.*.*...*.*.*.*.*.*.*.*.\n*.*.*.*.*.*...*.....*.*...*...*.*.*.*.*\n.*...*.*.*.*.*...*.*.*.*.*...*.*...*.*.\n*.*.*.*.*...*.*.*.*.*.*.*.*...*.*.*.*.*\n.*.*.*.*.*.*.*.*...*.*.*.*.*.*.*.*.*.*.\n....*.*.*.*...*.*.*.*.*.*.*...*.*.*...*\n.*.*.*...*.*.*.*.*...*.*.*.*.*.*.*.*...\n*.*.*.*.*.*.*.....*...*...*.*.*.*.*.*.*\n.*.*...*.....*.*.*.*.*.*.*...*.*.*.*.*.\n*.*.*.*.*.*.*.*.*.*.*.*.*.*.*.*.*.*.*.*\n.*.*.*.*.*.*.*.*.*.*.*.*.*.*.*.*.*.*.*.\n\nRRRRLLRRLLLLLLLRLLRL\nRRRRRRRLRRLRRLRRRLRR\nRRRLLRRRRRLRRRRRLRRR\nLLLLRRLLRRLLLLLRRLLL\nLRRRRLRRLRLLRLLRRLRR\nRRRRRRRRLRRRRLLRRRLR";
    assert_eq!(quests::story2_quest01::p3(input).unwrap(), "39 122");
}

#[test]
fn story2_score_single() {
    // A two-column board with bumpers everywhere: one move right from the
    // left edge.
    let grid: Vec<Vec<u8>> = vec![b"**".to_vec(), b"**".to_vec()];
    let mv = b"R".to_vec();
    let s = quests::story2_quest01::score(&grid, &mv, 0);
    // Final column 1: (1/2 + 1) * 2 - (0/2 + 1) = 2 - 1 = 1.
    assert_eq!(s, 1);
}
