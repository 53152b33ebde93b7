use hybrid_stages::runs::{input_file_path, output_dir_path, run_dir_path, stage_name, Counter};
use hybrid_stages::text::{
    append_decimal, chars_of, contains_text, find_from, is_white_space, parse_number, split_lines,
    split_words, trim_start_of,
};

#[test]
fn numerals_are_those_of_the_standard_library() {
    for n in [0, 1, 9, 10, 11, 99, 100, 90, 1234567890, usize::MAX] {
        let mut s = String::from("x");
        append_decimal(&mut s, n);
        assert_eq!(s, format!("x{}", n));
        assert_eq!(parse_number(&chars_of(&s[1..]), 10, usize::MAX), Some(n));
    }
}

#[test]
fn white_space_is_that_of_the_standard_library() {
    for v in 0..0x11_0000u32 {
        if let Some(c) = char::from_u32(v) {
            assert_eq!(is_white_space(c), c.is_whitespace(), "{:?}", c);
        }
    }
}

#[test]
fn words_are_those_of_the_standard_library() {
    let all = ["", " ", "a", " a  b\t\nc ", "/bin/x  --y\u{3000}\u{e9}t\u{e9}", "one two"];
    for s in all {
        let expected: Vec<String> = s.split_whitespace().map(String::from).collect();
        assert_eq!(split_words(s), expected);
    }
}

#[test]
fn lines_are_those_of_the_standard_library() {
    for s in ["", "\n", "a", "a\n", "a\r\nb\r", "\r\n\r\n", "a\n\nb", "\u{e9}\r\r\n"] {
        let expected: Vec<Vec<char>> = s.lines().map(|l| l.chars().collect()).collect();
        assert_eq!(split_lines(s), expected);
    }
}

#[test]
fn substrings_are_found() {
    assert!(contains_text("a/constraints_1", "constraint"));
    assert!(contains_text("", ""));
    assert!(!contains_text("constrain", "constraint"));
    assert!(contains_text("xxconstraint", "constraint"));
    assert_eq!(find_from(&chars_of("abab"), &chars_of("ab"), 1), Some(2));
    assert_eq!(find_from(&chars_of("abab"), &chars_of("ab"), 3), None);
    assert_eq!(trim_start_of(&chars_of("ababb"), &chars_of("ab")), &['b']);
}

#[test]
fn numbers_respect_their_bound() {
    assert_eq!(parse_number(&chars_of("ff"), 16, 255), Some(255));
    assert_eq!(parse_number(&chars_of("100"), 16, 255), None);
    assert_eq!(parse_number(&chars_of("8"), 8, 255), None);
    assert_eq!(parse_number(&chars_of(""), 10, 255), None);
    assert_eq!(parse_number(&chars_of("+"), 10, 255), None);
}

#[test]
fn stages_and_runs_are_numbered() {
    let mut ids = Counter::new();
    assert_eq!(ids.take(), 0);
    assert_eq!(ids.take(), 1);
    assert_eq!(stage_name("sympatch", 12), "sympatch:12");
    assert_ne!(stage_name("sympatch", 1), stage_name("sympatch", 11));
    assert_eq!(run_dir_path(7), "out/symcc_output_7");
    assert_eq!(input_file_path(7), "out/symcc_output_7/cur_input");
    assert_eq!(output_dir_path(70), "out/symcc_output_70/output");
}
