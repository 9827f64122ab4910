use six_degrees::text::char_is_whitespace;
use six_degrees::text::chars_of;
use six_degrees::text::split_chars;
use six_degrees::text::string_of;
use six_degrees::text::trim_chars;

fn chars(s: &str) -> Vec<char> {
    s.chars().collect()
}

#[test]
fn white_space_is_what_the_standard_library_says() {
    let mut code: u32 = 0;
    while code <= 0x10FFFF {
        if let Some(c) = char::from_u32(code) {
            assert_eq!(char_is_whitespace(c), c.is_whitespace(), "U+{:04X}", code);
        }
        code += 1;
    }
}

#[test]
fn chars_of_and_string_of_are_inverse() {
    let text = "Harry Potter, Zoë, 日本語\n";
    let v = chars_of(text);
    assert_eq!(v, chars(text));
    assert_eq!(string_of(&v), text);
    assert_eq!(string_of(&Vec::new()), "");
}

#[test]
fn trim_chars_matches_str_trim() {
    let samples = [
        "",
        " ",
        "\t\n\r ",
        "a",
        " a",
        "a ",
        "  a b  ",
        "\u{2003}x\u{2028}",
        "\u{feff}x",
        "x\u{200b}",
        " \u{85}mid dle\u{a0} ",
    ];
    for sample in samples {
        assert_eq!(string_of(&trim_chars(&chars(sample))), sample.trim(), "{:?}", sample);
    }
}

#[test]
fn split_chars_matches_str_split() {
    let samples = ["", ",", "a", "a,b", ",a", "a,", "a,,b", ",,", "ab,cd,ef", "a\nb,c"];
    for sample in samples {
        let got: Vec<String> = split_chars(&chars(sample), ',').iter().map(string_of).collect();
        let expected: Vec<String> = sample.split(',').map(|piece| piece.to_owned()).collect();
        assert_eq!(got, expected, "{:?}", sample);
    }
}

#[test]
fn split_chars_gives_one_piece_more_than_separators() {
    let pieces = split_chars(&chars("a\n\nb\n"), '\n');
    assert_eq!(pieces.len(), 4);
    assert_eq!(pieces[0], chars("a"));
    assert_eq!(pieces[1], chars(""));
    assert_eq!(pieces[2], chars("b"));
    assert_eq!(pieces[3], chars(""));
}
