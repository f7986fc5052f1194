use line_puzzles::scanner::{
    convert_digit, earlier, find_first, find_last, index_first_digit, index_first_letter,
    index_last_digit, index_last_letter, later, parse_first, parse_last, parse_line,
    parse_with_digits, search_forwarad, total_of_digits, total_with_words, ScanError,
};

#[test]
fn test_parse_last() {
    assert_eq!(parse_last("kkone2ee").unwrap(), 2);
}

#[test]
fn test_index_last_letter() {
    assert_eq!(index_last_letter("ttttone").unwrap().1, 1);
    assert_eq!(index_last_letter("ttttonetwothree4").unwrap().1, 3);
    assert_eq!(index_last_letter("aone").unwrap(), (1, 1));
    assert_eq!(index_last_letter("kkone2ee").unwrap(), (2, 1));
}

#[test]
fn test_index_last_digit() {
    assert_eq!(index_last_digit("abcone1tht").unwrap().1, 1);
    assert_eq!(index_last_digit("8abcone1tht").unwrap().1, 1);
    assert_eq!(index_last_digit("kkone2ee").unwrap(), (5, 2));
}

#[test]
fn test_search_forward() {
    assert_eq!(search_forwarad("aone", 0, "one"), false);
    assert_eq!(search_forwarad("aone", 1, "one"), true);
    assert_eq!(search_forwarad("a", 0, "one"), false);
    assert_eq!(search_forwarad("aono", 3, "one"), false);
}

#[test]
fn test_find_first() {
    assert_eq!(parse_first("aaone2").unwrap(), 1);
    assert_eq!(parse_first("aaoue2").unwrap(), 2);
    assert_eq!(parse_first("tht1three4").unwrap(), 1);
    assert_eq!(parse_first("abcdef").is_err(), true);
}

#[test]
fn test_index_first_digit() {
    assert_eq!(index_first_digit("ab1").unwrap(), (2, 1));
    assert_eq!(index_first_digit("abwthua").is_none(), true);
}

#[test]
fn test_index_first_letter() {
    assert_eq!(index_first_letter("aono"), None);
    assert_eq!(index_first_letter("aone").unwrap(), (1, 1));
    assert_eq!(index_first_letter("aaone2").unwrap(), (2, 1));
    assert_eq!(search_forwarad("aaone2", 2, "one"), true);
}

#[test]
fn test_parse_with_digits_first() {
    assert_eq!(parse_with_digits("two1nine").unwrap(), 29);
    assert_eq!(parse_with_digits("eightwothree").unwrap(), 83);
    assert_eq!(parse_with_digits("abcone2threexyz").unwrap(), 13);
    assert_eq!(parse_with_digits("xtwone3four").unwrap(), 24);
    assert_eq!(parse_with_digits("4nineeightseven2").unwrap(), 42);
    assert_eq!(parse_with_digits("zoneight234").unwrap(), 14);
    assert_eq!(parse_with_digits("7pqrstsixteen").unwrap(), 76);
    assert_eq!(parse_with_digits("9hcj6nine").unwrap(), 99);
}

#[test]
fn test_parse_first_line() {
    assert_eq!(parse_line("1abc2").unwrap(), 12);
}

#[test]
fn test_parse_second_line() {
    assert_eq!(parse_line("pqr3stu8vwx").unwrap(), 38);
}

#[test]
fn overlap_first_and_last() {
    assert_eq!(find_first("aaone2"), Ok((2, 1)));
    assert_eq!(find_last("aaone2"), Ok((5, 2)));
    assert_eq!(find_first("twone"), Ok((0, 2)));
    assert_eq!(find_last("twone"), Ok((2, 1)));
    assert_eq!(parse_with_digits("twone").unwrap(), 21);
    assert_eq!(parse_with_digits("oneight").unwrap(), 18);
}

#[test]
fn single_token_counts_twice() {
    assert_eq!(parse_with_digits("abc7def").unwrap(), 77);
    assert_eq!(parse_with_digits("xxsixxx").unwrap(), 66);
    assert_eq!(parse_line("abc7def").unwrap(), 77);
    assert_eq!(find_first("seven"), find_last("seven"));
}

#[test]
fn no_token_is_refused() {
    assert_eq!(find_first("abcdef"), Err(ScanError::NoTokenFound));
    assert_eq!(find_last("abcdef"), Err(ScanError::NoTokenFound));
    assert_eq!(parse_first(""), Err(ScanError::NoTokenFound));
    assert_eq!(parse_last(""), Err(ScanError::NoTokenFound));
    assert_eq!(parse_with_digits("zero on tw thre"), Err(ScanError::NoTokenFound));
}

#[test]
fn no_digit_is_refused() {
    assert_eq!(parse_line(""), Err(ScanError::NoDigitFound));
    assert_eq!(parse_line("onetwothree"), Err(ScanError::NoDigitFound));
}

#[test]
fn digit_lines_read_alike() {
    let lines = ["7", "12", "904", "0000", "3141592653"];
    for line in lines {
        assert_eq!(parse_line(line), parse_with_digits(line));
    }
    assert_eq!(parse_line("904").unwrap(), 94);
    assert_eq!(parse_with_digits("3141592653").unwrap(), 33);
    assert_eq!(parse_line("0000").unwrap(), 0);
}

#[test]
fn words_are_not_digits_alone() {
    assert_eq!(parse_line("two1nine").unwrap(), 11);
    assert_eq!(parse_with_digits("two1nine").unwrap(), 29);
}

#[test]
fn zero_is_a_digit_and_no_word() {
    assert_eq!(index_first_digit("a0b"), Some((1, 0)));
    assert_eq!(index_first_letter("zero"), None);
    assert_eq!(convert_digit("zero"), None);
    assert_eq!(parse_with_digits("zero0").unwrap(), 0);
}

#[test]
fn words_are_case_sensitive() {
    assert_eq!(index_first_letter("ONE Two thrEE"), None);
    assert_eq!(convert_digit("One"), None);
    assert_eq!(search_forwarad("ONE", 0, "one"), false);
}

#[test]
fn convert_digit_knows_nine_words() {
    let words = ["one", "two", "three", "four", "five", "six", "seven", "eight", "nine"];
    for (i, w) in words.iter().enumerate() {
        assert_eq!(convert_digit(w), Some(i + 1));
    }
    assert_eq!(convert_digit(""), None);
    assert_eq!(convert_digit("ones"), None);
    assert_eq!(convert_digit("on"), None);
    assert_eq!(convert_digit("1"), None);
}

#[test]
fn search_is_bounded() {
    assert_eq!(search_forwarad("one", 0, "one"), true);
    assert_eq!(search_forwarad("one", 1, "one"), false);
    assert_eq!(search_forwarad("xon", 1, "one"), false);
    assert_eq!(search_forwarad("one", usize::MAX, "one"), false);
    assert_eq!(search_forwarad("one", 3, ""), true);
    assert_eq!(search_forwarad("one", 1, ""), true);
    assert_eq!(search_forwarad("one", 4, ""), false);
}

#[test]
fn positions_count_characters() {
    assert_eq!(index_first_digit("\u{e9}\u{e9}7"), Some((2, 7)));
    assert_eq!(index_last_letter("\u{e9}one"), Some((1, 1)));
    assert_eq!(search_forwarad("\u{e9}on", 1, "one"), false);
    assert_eq!(find_last("\u{e9}two\u{e9}"), Ok((1, 2)));
}

#[test]
fn last_word_goes_by_its_start() {
    assert_eq!(index_last_letter("eighthree"), Some((4, 3)));
    assert_eq!(index_last_letter("twone"), Some((2, 1)));
    assert_eq!(find_last("1nine"), Ok((1, 9)));
    assert_eq!(find_last("nine1"), Ok((4, 1)));
}

#[test]
fn candidates_at_one_position_conflict() {
    assert_eq!(earlier(Some((2, 1)), Some((2, 5))), Err(ScanError::ConflictingTie));
    assert_eq!(later(Some((2, 1)), Some((2, 5))), Err(ScanError::ConflictingTie));
    assert_eq!(earlier(Some((3, 1)), Some((2, 5))), Ok((2, 5)));
    assert_eq!(later(Some((3, 1)), Some((2, 5))), Ok((3, 1)));
    assert_eq!(earlier(None, Some((2, 5))), Ok((2, 5)));
    assert_eq!(later(Some((3, 1)), None), Ok((3, 1)));
    assert_eq!(earlier(None, None), Err(ScanError::NoTokenFound));
    assert_eq!(later(None, None), Err(ScanError::NoTokenFound));
}

#[test]
fn totals_over_lines() {
    let digits = "1abc2\npqr3stu8vwx\na1b2c3d4e5f\ntreb7uchet\n";
    assert_eq!(total_of_digits(digits), Ok(142));
    let words = "two1nine\neightwothree\nabcone2threexyz\nxtwone3four\n4nineeightseven2\nzoneight234\n7pqrstsixteen";
    assert_eq!(total_with_words(words), Ok(281));
    assert_eq!(total_of_digits(""), Ok(0));
    assert_eq!(total_with_words(""), Ok(0));
    assert_eq!(total_of_digits("12"), Ok(12));
    assert_eq!(total_of_digits("12\n"), Ok(12));
}

#[test]
fn totals_stop_at_a_line_without_value() {
    assert_eq!(total_of_digits("12\nabc\n34"), Err(ScanError::NoDigitFound));
    assert_eq!(total_with_words("12\nabc\n34"), Err(ScanError::NoTokenFound));
    assert_eq!(total_of_digits("12\n\n34"), Err(ScanError::NoDigitFound));
    assert_eq!(total_of_digits("\n"), Err(ScanError::NoDigitFound));
    assert_eq!(total_of_digits("one\n"), Err(ScanError::NoDigitFound));
    assert_eq!(total_with_words("one\n"), Ok(11));
}

#[test]
fn totals_read_lines_that_end_in_return_and_feed() {
    assert_eq!(total_of_digits("12\r\n34\r\n"), Ok(46));
    assert_eq!(total_with_words("one\r\ntwo\r"), Ok(33));
    assert_eq!(total_of_digits("\r\n"), Err(ScanError::NoDigitFound));
    assert_eq!(total_of_digits("12\n\r"), Err(ScanError::NoDigitFound));
}

#[test]
fn totals_agree_with_the_lines_of_std() {
    let texts = ["", "1", "1\n", "1\n2", "1\r\n2\r\n", "one2\nthree\n4five", "9\n\n", "x\n1"];
    for text in texts {
        let mut by_line_digits: Result<u128, ScanError> = Ok(0);
        let mut by_line_words: Result<u128, ScanError> = Ok(0);
        for line in text.lines() {
            if let Ok(sum) = by_line_digits {
                by_line_digits = parse_line(line).map(|v| sum + v as u128);
            }
            if let Ok(sum) = by_line_words {
                by_line_words = parse_with_digits(line).map(|v| sum + v as u128);
            }
        }
        assert_eq!(total_of_digits(text), by_line_digits);
        assert_eq!(total_with_words(text), by_line_words);
    }
}
