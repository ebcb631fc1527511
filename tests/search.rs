use wordy::{get_line, line_bounds, search};

const LINE_ONE: &str = "  1 This software and database is being provided to you, the LICENSEE, by  ";
const LINE_TWO: &str = "  2 Princeton University under the following license.  By obtaining, using  ";

fn licence_text() -> Vec<u8> {
    let mut text = String::new();
    text.push_str(LINE_ONE);
    text.push('\n');
    text.push_str(LINE_TWO);
    text.push('\n');
    text.push_str("  3 and/or copying this software and database, you agree that you have  \n");
    text.into_bytes()
}

fn fruit_text() -> Vec<u8> {
    "apple n 1 0 2 0 100\nbanana n 1 0 2 0 200".as_bytes().to_vec()
}

#[test]
fn first_line_beginning_test() {
    let test_string: String = LINE_ONE.to_string();
    assert_eq!(get_line(&licence_text(), 0), test_string.into_bytes());
}

#[test]
fn first_line_middle_test() {
    let test_string: String = LINE_ONE.to_string();
    assert_eq!(get_line(&licence_text(), 25), test_string.into_bytes());
}

#[test]
fn first_line_end_test() {
    let test_string: String = LINE_ONE.to_string();
    assert_eq!(get_line(&licence_text(), 74), test_string.into_bytes());
}

#[test]
fn second_line_beginning_test() {
    // Offset 75 is the first line's newline; the second line starts at 76.
    let test_string: String = LINE_TWO.to_string();
    assert_eq!(get_line(&licence_text(), 76), test_string.into_bytes());
}

#[test]
fn second_line_middle_test() {
    let test_string: String = LINE_TWO.to_string();
    assert_eq!(get_line(&licence_text(), 84), test_string.into_bytes());
}

#[test]
fn second_line_end_test() {
    let test_string: String = LINE_TWO.to_string();
    assert_eq!(get_line(&licence_text(), 149), test_string.into_bytes());
}

#[test]
fn newline_belongs_to_the_line_it_ends() {
    let text = licence_text();
    assert_eq!(text[75], b'\n');
    assert_eq!(get_line(&text, 75), LINE_ONE.as_bytes().to_vec());
    assert_eq!(line_bounds(&text, 75), (0, 75));
    assert_eq!(line_bounds(&text, 76), (76, 152));
}

#[test]
fn every_offset_of_a_line_gives_that_line() {
    let text = licence_text();
    for pos in 76..=152 {
        assert_eq!(get_line(&text, pos), LINE_TWO.as_bytes().to_vec());
    }
}

#[test]
fn last_line_without_newline_runs_to_the_end() {
    let text = fruit_text();
    assert_eq!(get_line(&text, text.len() - 1), b"banana n 1 0 2 0 200".to_vec());
}

#[test]
fn window_bounds_the_backward_scan() {
    let mut text = vec![b'x'; 30000];
    text.push(b'\n');
    // The true line starts at 0, but only 25000 bytes before the offset are looked at.
    assert_eq!(line_bounds(&text, 29999), (4999, 30000));
    assert_eq!(line_bounds(&text, 25000), (0, 30000));
}

#[test]
fn two_line_file_finds_both_and_rejects_cherry() {
    let text = fruit_text();
    assert_eq!(search(&text, "apple"), Some(b"apple n 1 0 2 0 100".to_vec()));
    assert_eq!(search(&text, "banana"), Some(b"banana n 1 0 2 0 200".to_vec()));
    assert_eq!(search(&text, "cherry"), None);
}

#[test]
fn absent_keys_before_between_and_after() {
    let text = fruit_text();
    assert_eq!(search(&text, "aardvark"), None);
    assert_eq!(search(&text, "apricot"), None);
    assert_eq!(search(&text, "zebra"), None);
    assert_eq!(search(&text, "appl"), None);
    assert_eq!(search(&text, "apple n"), None);
    assert_eq!(search(&text, ""), None);
}

#[test]
fn search_in_empty_text_finds_nothing() {
    assert_eq!(search(&[], "apple"), None);
}

#[test]
fn search_agrees_with_a_linear_scan() {
    let words = [
        "abacus", "bee", "cat", "dog", "eel", "fig", "goat", "hen", "ibis", "jay", "kiwi", "lark",
        "mole", "newt", "owl", "pig", "quail", "rat", "seal", "toad",
    ];
    let mut text = String::new();
    for (i, w) in words.iter().enumerate() {
        text.push_str(&format!("{} n 1 0 1 0 {}\n", w, i * 7 + 3));
    }
    let bytes = text.into_bytes();
    for w in words.iter() {
        let expected = String::from_utf8(bytes.clone())
            .unwrap()
            .lines()
            .find(|l| l.split_whitespace().next() == Some(*w))
            .map(|l| l.as_bytes().to_vec());
        assert!(expected.is_some());
        assert_eq!(search(&bytes, w), expected);
    }
    assert_eq!(search(&bytes, "zzz"), None);
    assert_eq!(search(&bytes, "aa"), None);
}
