use winsentry::text::{
    chars_of, parse_unsigned_chars, split_chars, split_lines, strip_chars, trim, TrimSet,
};

fn strings(v: Vec<Vec<char>>) -> Vec<String> {
    v.into_iter().map(|c| c.into_iter().collect()).collect()
}

#[test]
fn trim_matches_std() {
    let samples = ["", "  a  ", "\u{a0}x\u{2003}", "\t\n\r", "a b", "\u{85}y\u{3000}"];
    for s in samples.iter() {
        assert_eq!(trim(s), s.trim(), "input {:?}", s);
    }
}

#[test]
fn strip_quotes() {
    let v = chars_of("\"\"12\"\"");
    let r: String = strip_chars(&v, TrimSet::Only('"')).into_iter().collect();
    assert_eq!(r, "12");
    let all = chars_of("\"\"\"");
    assert!(strip_chars(&all, TrimSet::Only('"')).is_empty());
}

#[test]
fn split_matches_std() {
    let samples = ["", ",", "a,b", ",a,,b,", "abc"];
    for s in samples.iter() {
        let expected: Vec<String> = s.split(',').map(|x| x.to_string()).collect();
        assert_eq!(strings(split_chars(&chars_of(s), ',')), expected, "input {:?}", s);
    }
}

#[test]
fn lines_match_std() {
    let samples = ["", "a", "a\n", "a\r\nb\r\n", "a\r\nb\r", "\n\n", "x\ny", "\r\n"];
    for s in samples.iter() {
        let expected: Vec<String> = s.lines().map(|x| x.to_string()).collect();
        assert_eq!(strings(split_lines(&chars_of(s))), expected, "input {:?}", s);
    }
}

#[test]
fn unsigned_parse_matches_std() {
    let samples = [
        "", "+", "-1", "0", "+7", "++7", "42", "4294967295", "4294967296", "007", " 1", "1a",
        "18446744073709551615", "18446744073709551616",
    ];
    for s in samples.iter() {
        let v = chars_of(s);
        assert_eq!(
            parse_unsigned_chars(&v, u32::MAX as u64),
            s.parse::<u32>().ok().map(|x| x as u64),
            "u32 input {:?}",
            s
        );
        assert_eq!(parse_unsigned_chars(&v, u64::MAX), s.parse::<u64>().ok(), "u64 input {:?}", s);
    }
}
