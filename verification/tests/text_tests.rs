use team_trial_tracker::text::{
    backup_file_name, join_words, lines, parse_u32, remove_commas, remove_mvp, split_on_spaces, trim,
};

fn chars(s: &str) -> Vec<char> {
    s.chars().collect()
}

fn string(v: &[char]) -> String {
    v.iter().collect()
}

#[test]
fn lines_match_std() {
    for text in ["a\r\nb\n\nc\r", "", "\n", "abc\n", "abc", "x\r\n", "\r\n\r\n", "a\nb"] {
        let ours: Vec<String> = lines(text).iter().map(|l| string(l)).collect();
        let std_lines: Vec<String> = text.lines().map(|l| l.to_string()).collect();
        assert_eq!(ours, std_lines, "lines of {text:?}");
    }
}

#[test]
fn trim_matches_std() {
    for text in ["  Special Week \t", "\u{3000}x\u{a0}", "", "   ", "a b"] {
        assert_eq!(string(&trim(&chars(text))), text.trim());
    }
}

#[test]
fn mvp_is_removed_as_split_does() {
    for text in ["Special Week MVP", "MVPMVP", "MMVPVP", "MV", "xMVPyMVP"] {
        let expected = text.split("MVP").collect::<String>();
        assert_eq!(string(&remove_mvp(&chars(text))), expected);
    }
}

#[test]
fn parse_matches_std() {
    for text in ["123", "+12", "-1", "", "+", "4294967295", "4294967296", "00042", "1a", "99999999999"] {
        assert_eq!(parse_u32(&chars(text)), text.parse::<u32>().ok(), "parse of {text:?}");
    }
    assert_eq!(string(&remove_commas(&chars("45,000"))), "45000");
}

#[test]
fn split_and_join_match_std() {
    for text in ["a  b", "", " a", "Special Week"] {
        let pieces: Vec<String> = split_on_spaces(&chars(text)).iter().map(|p| string(p)).collect();
        let std_pieces: Vec<String> = text.split(' ').map(|p| p.to_string()).collect();
        assert_eq!(pieces, std_pieces);
    }
    let words = vec![chars("Special"), chars("Week")];
    assert_eq!(string(&join_words(&words)), "Special Week");
    assert_eq!(string(&join_words(&Vec::new())), "");
}

#[test]
fn backup_names_match_format() {
    for (y, mo, d, h, mi, s) in [
        (2025i32, 7u32, 4u32, 9u32, 5u32, 0u32),
        (2024, 12, 31, 23, 59, 59),
        (5, 1, 10, 0, 0, 1),
        (-3, 2, 2, 2, 2, 2),
        (-12345, 11, 1, 1, 1, 1),
        (i32::MIN, u32::MAX, 0, 0, 0, 0),
    ] {
        let expected = format!("{:02}-{:02}-{:02} {:02}{:02}{:02}", y, mo, d, h, mi, s);
        assert_eq!(backup_file_name(y, mo, d, h, mi, s), expected);
    }
}

#[test]
fn whitespace_matches_std_for_every_char() {
    for u in 0u32..=0x10FFFF {
        if let Some(c) = char::from_u32(u) {
            assert_eq!(team_trial_tracker::text::is_whitespace(c), c.is_whitespace(), "{u:#x}");
        }
    }
}
