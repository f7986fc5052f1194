use line_puzzles::text::{
    chars_of, contains_chars, is_space, parse_number, split_chars, stands_at, strip_return,
    trim_chars,
};

fn chars(s: &str) -> Vec<char> {
    s.chars().collect()
}

fn text(v: &[char]) -> String {
    v.iter().collect()
}

#[test]
fn chars_of_keeps_every_character() {
    assert_eq!(chars_of(""), Vec::<char>::new());
    assert_eq!(chars_of("a1\u{e9}\u{1f600}z"), vec!['a', '1', '\u{e9}', '\u{1f600}', 'z']);
}

#[test]
fn stands_at_compares_in_place() {
    let line = chars("xtwone3");
    assert!(stands_at(&line, 1, &chars("two")));
    assert!(stands_at(&line, 3, &chars("one")));
    assert!(!stands_at(&line, 2, &chars("two")));
    assert!(!stands_at(&line, 5, &chars("e3x")));
    assert!(stands_at(&line, 7, &chars("")));
    assert!(!stands_at(&line, 8, &chars("")));
    assert!(!stands_at(&line, usize::MAX, &chars("e")));
}

#[test]
fn white_space_is_that_of_std() {
    for c in '\0'..=char::MAX {
        assert_eq!(is_space(c), c.is_whitespace(), "{:?}", c);
    }
}

#[test]
fn trimming_is_that_of_std() {
    let samples = [
        "",
        " ",
        "a",
        "  a  ",
        "\t\n a b \r\n",
        "\u{a0}x\u{3000}",
        "\u{2003}\u{85}mid dle\u{1680}\u{205f}",
        "   ",
        "x  ",
        "  x",
        "\u{200b}x\u{200b}",
    ];
    for s in samples {
        assert_eq!(text(trim_chars(&chars(s))), s.trim(), "{:?}", s);
    }
}

#[test]
fn splitting_is_that_of_std() {
    let samples = ["", ",", "a", "a,b", ",a,,b,", ",,", "a;b,c", "Game 1: 3 blue: x"];
    for s in samples {
        for sep in [',', ';', ':', ' ', '\n'] {
            let mine: Vec<String> = split_chars(&chars(s), sep).iter().map(|p| text(p)).collect();
            let theirs: Vec<String> = s.split(sep).map(String::from).collect();
            assert_eq!(mine, theirs, "{:?} at {:?}", s, sep);
        }
    }
    assert_eq!(split_chars(&chars(""), ',').len(), 1);
}

#[test]
fn containing_is_that_of_std() {
    let samples = ["", "blue", " 3 blue", "blu e", "bblue", "bluegreen", "re", "xredx", "gree"];
    for s in samples {
        for term in ["blue", "green", "red", "", "e"] {
            assert_eq!(contains_chars(&chars(s), &chars(term)), s.contains(term), "{:?} {:?}", s, term);
        }
    }
}

#[test]
fn numbers_are_those_of_std() {
    let most = format!("{}", usize::MAX);
    let beyond = format!("{}", usize::MAX as u128 + 1);
    let tenfold = format!("{}0", usize::MAX);
    let padded = format!("000{}", usize::MAX);
    let signed = format!("+{}", usize::MAX);
    let samples = [
        "", "0", "7", "42", "007", "+7", "+", "-7", "-", "++7", "+-7", "7+", " 7", "7 ", "7a",
        "a7", "1_000", "0x10", "\u{663}", "12\u{663}", "1.5", "99999999999999999999999999999",
        most.as_str(), beyond.as_str(), tenfold.as_str(), padded.as_str(), signed.as_str(),
    ];
    for s in samples {
        assert_eq!(parse_number(&chars(s)), s.parse::<usize>().ok(), "{:?}", s);
    }
    assert_eq!(parse_number(&chars("42")), Some(42));
    assert_eq!(parse_number(&chars(&most)), Some(usize::MAX));
    assert_eq!(parse_number(&chars(&beyond)), None);
}

#[test]
fn strip_return_takes_one_return() {
    assert_eq!(text(strip_return(&chars("ab\r"))), "ab");
    assert_eq!(text(strip_return(&chars("ab\r\r"))), "ab\r");
    assert_eq!(text(strip_return(&chars("ab"))), "ab");
    assert_eq!(text(strip_return(&chars("\rab"))), "\rab");
    assert_eq!(text(strip_return(&chars(""))), "");
}
