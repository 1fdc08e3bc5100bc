use grid_replay::text::{chars_of, is_whitespace, slice_of, split, trim};

fn chars(s: &str) -> Vec<char> {
    s.chars().collect()
}

fn text(v: &Vec<char>) -> String {
    v.iter().collect()
}

#[test]
fn whitespace_is_what_std_calls_whitespace() {
    let mut count = 0;
    for code in 0..=0x10ffffu32 {
        if let Some(c) = char::from_u32(code) {
            assert_eq!(is_whitespace(c), c.is_whitespace(), "U+{:04X}", code);
            if is_whitespace(c) {
                count += 1;
            }
        }
    }
    assert_eq!(count, 25);
}

#[test]
fn chars_of_keeps_every_character() {
    assert_eq!(chars_of(""), Vec::<char>::new());
    assert_eq!(chars_of("a|b"), vec!['a', '|', 'b']);
    assert_eq!(chars_of("é\u{3000}𝄞"), vec!['é', '\u{3000}', '𝄞']);
}

#[test]
fn slice_of_copies_a_range() {
    let v = chars("0123456");
    assert_eq!(text(&slice_of(&v, 2, 5)), "234");
    assert_eq!(text(&slice_of(&v, 0, 7)), "0123456");
    assert_eq!(text(&slice_of(&v, 3, 3)), "");
}

#[test]
fn trim_agrees_with_std() {
    let samples = [
        "",
        " ",
        "   \t\r\n",
        "a",
        " a",
        "a ",
        "  a b  ",
        "\u{a0}1|2|3\u{2003}",
        "\u{feff}x",
        "x\u{200b}",
        "1|2|3\r",
        "\u{85}\u{1680}q\u{2028}\u{2029}\u{202f}\u{205f}\u{3000}",
        " | | ",
    ];
    for s in samples {
        assert_eq!(text(&trim(&chars(s))), s.trim(), "{:?}", s);
    }
}

#[test]
fn split_agrees_with_std() {
    let samples = ["", "|", "a", "a|b", "a|b|c", "||", "|a|", "a||b|", "1|2|3|4|5", "no pipe here"];
    for s in samples {
        let ours: Vec<String> = split(&chars(s), '|').iter().map(text).collect();
        let theirs: Vec<String> = s.split('|').map(String::from).collect();
        assert_eq!(ours, theirs, "{:?}", s);
    }
}

#[test]
fn split_of_empty_text_is_one_empty_piece() {
    let parts = split(&Vec::new(), '\n');
    assert_eq!(parts.len(), 1);
    assert!(parts[0].is_empty());
}
