use sudo2fa::qr::encode;

// Module maps computed independently from ISO/IEC 18004 for Version 5-L,
// byte mode, mask 0 ('#' dark).

fn render(m: &[Vec<bool>]) -> Vec<String> {
    m.iter().map(|row| row.iter().map(|b| if *b { '#' } else { '.' }).collect()).collect()
}

const TOTP_URI: [&str; 37] = [
    "#######...#...#...#....#......#######",
    "#.....#..#...#...#...####..#..#.....#",
    "#.###.#.#..#...#...#...##..##.#.###.#",
    "#.###.#..#..##..##..#.######..#.###.#",
    "#.###.#..#..##..##..#.##......#.###.#",
    "#.....#...###.###.#######.##..#.....#",
    "#######.#.#.#.#.#.#.#.#.#.#.#.#######",
    "........#..#...#...#.##..##..........",
    "###.#####...#...#...##.....####...#..",
    "#.##....##.###.###.####.#.#####.....#",
    "..#.#.#....##.###.#####...#..#..#.###",
    "..##.#..##..###.###.##.#.####.#......",
    ".#.#.###..##..##..##.#######..#....##",
    "...#...#####..##..##..#.###...#..##.#",
    "##...#####...#...#......###.#.###.###",
    ".##.....#.##...#...#.##.#######..#...",
    ".###..##.#..#...#...##..#....###.#..#",
    "#.###......###.###.####..#..###..####",
    "###...####.##.###.#####.#....###...##",
    ".####...###.###.###.####.#.#####.#.#.",
    "....#.##...#..##..##.#......####....#",
    ".#.#.#.###.#..##..##.######.###...#.#",
    "##.####.#.#..#...#......#.#.#.##.#.##",
    "...###..####...#...#.###.#......##.#.",
    "#....##.###.#...#...##.#......#....##",
    "..#.#...##.###.###.###.###..#.##..#.#",
    "#.#.#.#..####.###.###...#....#..##.##",
    ".###...##.#.###.###.##.#.##...##....#",
    "#...#.#.####..##..####......######.#.",
    "........#.##..##..##...##..##...#..##",
    "#######.###..#...#...#....###.#.#.###",
    "#.....#.####...#...#.##..#..#...#....",
    "#.###.#.##..#...#...###.....#####..#.",
    "#.###.#....###.###..###..##.....#.#.#",
    "#.###.#.##.##.###.#.###...####.###..#",
    "#.....#.#...###.###.##...#.###.#...#.",
    "#######.#.##..##..#.##.##..###.###.##",
];

const LONG_URI: [&str; 37] = [
    "#######...#..###.###......##..#######",
    "#.....#..#...#.#.#.#.#.#.###..#.....#",
    "#.###.#.#..#...##..#...##..##.#.###.#",
    "#.###.#..#..#.###.##.##...###.#.###.#",
    "#.###.#..#..####...##.#....#..#.###.#",
    "#.....#...###.###..##.#######.#.....#",
    "#######.#.#.#.#.#.#.#.#.#.#.#.#######",
    "........#..#.#######.##.##...........",
    "###.#####...##..##.....####.###...#..",
    "###.#..##..###..######.##.#.###.....#",
    ".....##..####...###.#........#..#.###",
    "##.#.#..###.##.#.##..###.####.#......",
    "....####.#.####..#.##.......#.#....##",
    "#.####.....#..#.#####.####..#.#..##.#",
    ".#.#..##....#...#....##.##....###.###",
    ".#.#...###..###.###.##.####..##..#...",
    "#.#.#.###....##.##.##........###.#..#",
    "#####..##....##..#.###.###..###..####",
    ".####.#.#....##..............###...##",
    "##.....#########.###.#...##.####.#.#.",
    "##.#..#..#.#.##.##.........#.###....#",
    ".####...###..##.######....#..##...#.#",
    ".##..##...#...#.###.##...##.#.##.#.##",
    "###.....###..#..##.#####.#.##...##.#.",
    "#.#######....##.###....#......#....##",
    ".#..##..###.##..#.###..###..#.##..#.#",
    "#.#.######..##..#....#..........##.##",
    ".###.#.##..###...##..#..##..####....#",
    "#.....#..#...#...#......#..#######.#.",
    "........###.##...##..#.###.##...#..##",
    "#######.#........##..##.##.##.#.#.###",
    "#.....#.#.##.#..####.#..###.#...#....",
    "#.###.#.##.###.###.#........#####..##",
    "#.###.#..#..#...#########...#...#.###",
    "#.###.#.#.....#.#....#..##.#.#.###.##",
    "#.....#.##..#######.##...#.###.#...#.",
    "#######.#.#.##..##..#...#..##..###.##",
];

const EMPTY: [&str; 37] = [
    "#######..#..##..##..##..##..#.#######",
    "#.....#...###.###.###.###.###.#.....#",
    "#.###.#.###.###.###.###.###.#.#.###.#",
    "#.###.#..###.###.###.###.###..#.###.#",
    "#.###.#...#...#...#...#...#...#.###.#",
    "#.....#..#...#...#...#...#....#.....#",
    "#######.#.#.#.#.#.#.#.#.#.#.#.#######",
    "........###.###.###.###.###.#........",
    "###.#####.##..##..##..##..##.##...#..",
    "####.#.#..##..##..##..##..##...#.#.#.",
    "#.....#.#.#..#...#...#...#...#.#####.",
    ".##..#.#.#.#...#...#...#...#.###.#.##",
    "#....##..#..#...#...#...#...##..####.",
    ".#.#.#...#####.###.###.###.###..#.#..",
    "......###.###.###.###.###.###.#.....#",
    "###.#..##...###.###.###.###.#...#.#..",
    ".####.#.##.#..##..##..##..##..###.#.#",
    "######..####..##..##..##..##...#.#.#.",
    ".#.####.##...#...#...#...#...#.#####.",
    "#....#..#..#...#...#...#...#.###.#.##",
    ".#..#.#.###.#...#...#...#...##..####.",
    "#..###..##.###.###.###.###.###..#.#..",
    "..#.#.##.#.##.###.###.###.###.#.....#",
    ".#.....##.#.###.###.###.###.#...#.#..",
    ".###.##...##..##..##..##..##..###.#.#",
    ".##.##.#..##..##..##..##..##...#.#.#.",
    "#.#.###.#.#..#...#...#...#...#.#####.",
    ".#.....#.###...#...#...#...#.###.#.##",
    "#.#..###..#.#...#...#...#...########.",
    "........######.###.###.###.##...#.##.",
    "#######.#.###.###.###.###.#.#.#.#...#",
    "#.....#.#...###.###.###.###.#...#.##.",
    "#.###.#.####..##..##..##..#######.#.#",
    "#.###.#..###..##..##..##..###.##.#.#.",
    "#.###.#.##...#...#...#...#.#..##.##.#",
    "#.....#.#.##...#...#...#.....#.###.#.",
    "#######.#.#.#...#...#...#...####.####",
];

#[test]
fn qr_matches_reference_for_totp_uri() {
    let m = encode("otpauth://totp/sudo2fa?secret=JBSWY3DPEHPK3PXP&issuer=sudo2fa").unwrap();
    assert_eq!(render(&m), TOTP_URI.to_vec());
}

#[test]
fn qr_matches_reference_for_long_uri() {
    let m = encode("otpauth://totp/sudo2fa:root?secret=GEZDGNBVGY3TQOJQGEZDGNBVGY3TQOJQ&issuer=sudo2fa&period=30&digits=6").unwrap();
    assert_eq!(render(&m), LONG_URI.to_vec());
}

#[test]
fn qr_matches_reference_for_empty_text() {
    let m = encode("").unwrap();
    assert_eq!(render(&m), EMPTY.to_vec());
}
