use sudo2fa::split::{lines_of, words_of};

fn chars(s: &str) -> Vec<char> {
    s.chars().collect()
}

fn strings(v: Vec<Vec<char>>) -> Vec<String> {
    v.into_iter().map(|l| l.into_iter().collect()).collect()
}

#[test]
fn lines_agree_with_std() {
    for s in ["", "a", "a\n", "a\nb", "a\r\nb\r\n", "\n\n", "a\r", "a\r\r\n", " x \n\ty"] {
        let expected: Vec<String> = s.lines().map(str::to_owned).collect();
        assert_eq!(strings(lines_of(&chars(s))), expected, "{s:?}");
    }
}

#[test]
fn words_agree_with_std() {
    for s in ["", "   ", "a", " a  b\tc\n", "Uid:\t1000\t1000\t1000\t1000", "x\u{3000}y"] {
        let expected: Vec<String> = s.split_whitespace().map(str::to_owned).collect();
        assert_eq!(strings(words_of(&chars(s))), expected, "{s:?}");
    }
}
