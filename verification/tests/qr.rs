use sudo2fa::qr::{encode, svg, terminal};

const URI: &str = "otpauth://totp/sudo2fa?secret=JBSWY3DPEHPK3PXP&issuer=sudo2fa";

#[test]
fn totp_uri_fits() {
    let m = encode("otpauth://totp/sudo2fa?secret=JBSWY3DPEHPK3PXP&issuer=sudo2fa").unwrap();
    assert_eq!(m.len(), 37);
    assert!(
        svg("otpauth://totp/sudo2fa?secret=JBSWY3DPEHPK3PXP&issuer=sudo2fa")
            .unwrap()
            .starts_with("<svg")
    );
}

#[test]
fn qr_too_long_is_refused() {
    let long = "x".repeat(107);
    assert_eq!(
        encode(&long),
        Err("otpauth URI is too long for QR Version 5-L".to_string())
    );
    assert!(encode(&"x".repeat(106)).is_ok());
    assert!(svg(&long).is_err());
}

#[test]
fn qr_function_patterns() {
    let m = encode(URI).unwrap();
    for row in &m {
        assert_eq!(row.len(), 37);
    }
    // Finder corners, separators, timing, dark module, alignment centre.
    for (y, x) in [(0, 0), (0, 36), (36, 0), (3, 3), (3, 33), (33, 3), (29, 8), (30, 30), (28, 28)] {
        assert!(m[y][x], "({y},{x}) should be dark");
    }
    for (y, x) in [(7, 7), (7, 29), (29, 7), (1, 1), (31, 31), (6, 7), (6, 9)] {
        assert!(!m[y][x], "({y},{x}) should be light");
    }
    for i in 8..29 {
        assert_eq!(m[6][i], i % 2 == 0);
        assert_eq!(m[i][6], i % 2 == 0);
    }
}

#[test]
fn qr_format_information_is_level_l_mask_0() {
    let m = encode(URI).unwrap();
    let format = 0x77c4u16;
    let bit = |i: u16| (format >> i) & 1 == 1;
    for i in 0..=5 {
        assert_eq!(m[i as usize][8], bit(i));
        assert_eq!(m[8][5 - i as usize], bit(9 + i));
    }
    assert_eq!(m[7][8], bit(6));
    assert_eq!(m[8][8], bit(7));
    assert_eq!(m[8][7], bit(8));
    for i in 0..8u16 {
        assert_eq!(m[8][36 - i as usize], bit(i));
    }
    for i in 8..15u16 {
        assert_eq!(m[22 + i as usize][8], bit(i));
    }
}

#[test]
fn qr_svg_draws_each_dark_module() {
    let m = encode(URI).unwrap();
    let dark = m.iter().flatten().filter(|b| **b).count();
    let s = svg(URI).unwrap();
    assert!(s.contains("viewBox=\"0 0 45 45\""));
    assert!(s.ends_with("\"/></svg>"));
    assert_eq!(s.matches("h1v1H").count(), dark);
    assert!(s.contains("M4 4h1v1H4z"));
}

#[test]
fn qr_terminal_rendering() {
    let m = encode(URI).unwrap();
    let t = terminal(&m);
    let lines: Vec<&str> = t.lines().collect();
    assert_eq!(lines.len(), 23);
    for line in &lines {
        assert!(line.starts_with("\u{1b}[30;47m"));
        assert!(line.ends_with("\u{1b}[0m"));
        let body = &line["\u{1b}[30;47m".len()..line.len() - "\u{1b}[0m".len()];
        assert_eq!(body.chars().count(), 45);
    }
    // Row pair 0/1 of the symbol sits on line 2, after four quiet rows.
    let body: Vec<char> = lines[2].chars().skip(8).collect();
    assert_eq!(body[4], '\u{2588}');
    assert_eq!(lines[0].chars().skip(8).take(45).collect::<String>(), " ".repeat(45));
}
