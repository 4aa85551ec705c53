use mipt_rust::line_adjustment::{transform, PushWordsError, WordsWithSpacesIndices};

#[test]
fn simple() {
    let test_cases = [
        ("", 5, ""),
        ("test", 5, "test "),
        ("Lorem ipsum dolor sit amet consectetur adipiscing elit sed do eiusmod tempor incididunt ut labore et dolore magna aliqua", 12,
         "Lorem  ipsum\ndolor    sit\namet        \nconsectetur \nadipiscing  \nelit  sed do\neiusmod     \ntempor      \nincididunt  \nut labore et\ndolore magna\naliqua      "),
        ("Lorem     ipsum    dolor", 17, "Lorem ipsum dolor"),
    ];

    for &(input, line_width, expected) in &test_cases {
        println!("input: '{}'", input);
        assert_eq!(transform(input, line_width), expected);
    }
}

#[test]
fn long_first_word_leaves_an_empty_first_line() {
    assert_eq!(transform("abcde fg", 5), "abcde\nfg   ");
}

#[test]
fn extra_spaces_go_to_the_first_gaps() {
    assert_eq!(transform("a b c d", 10), "a  b  c  d");
    assert_eq!(transform("a b c d", 11), "a   b  c  d");
    assert_eq!(transform("a b c d", 12), "a   b   c  d");
}

#[test]
fn unicode_whitespace_separates_and_widths_are_bytes() {
    assert_eq!(transform("é\u{3000}x", 6), "é   x");
}

#[test]
fn push_word_and_to_string() {
    let mut line = WordsWithSpacesIndices::new(Vec::new(), 0);
    assert_eq!(line.push_word("ab", 4), Ok(()));
    assert_eq!(line.push_word("cd", 4), Err(PushWordsError::Overflow));
    assert_eq!(line.push_word("c", 4), Ok(()));
    assert_eq!(line.to_string(4), Ok("ab c\n".to_string()));
    assert_eq!(line.to_string(6), Ok("ab   c\n".to_string()));
    line.set_last();
    assert_eq!(line.to_string(4), Ok("ab c".to_string()));
}

#[test]
fn every_line_fills_the_width() {
    let input = "a bb ccc dddd eeeee ffffff g hh iii jjjj kkkkk llllll";
    for width in 6..20 {
        let out = transform(input, width);
        for line in out.split('\n') {
            assert_eq!(line.len(), width, "width {}: {:?}", width, out);
        }
    }
}

#[test]
fn words_can_run_together_when_the_line_is_full() {
    assert_eq!(transform("aaa bbb ccc", 10), "aaa bbbccc");
}
