use curtois2014::reader::Reader;

fn reader_chars(s: &str) -> Vec<char> {
    s.chars().collect()
}

fn reader_entries(text: &str) -> Vec<String> {
    let chars = reader_chars(text);
    let mut reader = Reader::new(&chars);
    let mut out = Vec::new();
    loop {
        let (line, more) = reader.get_next_data_entry();
        if !more {
            assert!(line.is_empty());
            break;
        }
        out.push(line.iter().collect());
    }
    out
}

#[test]
fn lines_come_as_they_stand_in_the_input() {
    assert_eq!(reader_entries("a\nb\n"), vec!["a\n", "b\n"]);
    assert_eq!(reader_entries("a\nb"), vec!["a\n", "b"]);
    assert_eq!(reader_entries("  a \r\n"), vec!["  a \r\n"]);
}

#[test]
fn blank_lines_are_passed_over() {
    assert_eq!(reader_entries("\n\na\n\n \t \nb\n\n"), vec!["a\n", "b\n"]);
    assert_eq!(reader_entries("\r\na\r\n\r\n"), vec!["a\r\n"]);
    assert_eq!(reader_entries("\u{a0}\n\u{3000}\nx"), vec!["x"]);
}

#[test]
fn comment_lines_are_passed_over() {
    assert_eq!(reader_entries("# one\na\n#two\n#\nb\n# last"), vec!["a\n", "b\n"]);
}

#[test]
fn a_hash_after_the_first_character_is_data() {
    assert_eq!(reader_entries(" # not a comment\na#b\n"), vec![" # not a comment\n", "a#b\n"]);
}

#[test]
fn input_without_data_has_no_entry() {
    assert!(reader_entries("").is_empty());
    assert!(reader_entries("\n").is_empty());
    assert!(reader_entries("# only a comment").is_empty());
    assert!(reader_entries("\n# c\n   \n\t\n").is_empty());
}

#[test]
fn the_end_of_input_is_reported_again_and_again() {
    let chars = reader_chars("a\n");
    let mut reader = Reader::new(&chars);
    let first = reader.get_next_data_entry();
    assert!(first.1);
    assert_eq!(first.0, &['a', '\n'][..]);
    for _ in 0..3 {
        let (line, more) = reader.get_next_data_entry();
        assert!(!more);
        assert!(line.is_empty());
    }
}
