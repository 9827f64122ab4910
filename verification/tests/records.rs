use six_degrees::csv_to_txt;
use six_degrees::read_csv;
use six_degrees::remove_duplicates;
use six_degrees::write_txt;

fn pair(a: &str, b: &str) -> (String, String) {
    (a.to_owned(), b.to_owned())
}

#[test]
fn test_read_csv() {
    let csv_data = "Harry Potter,Ron Weasley\nHermione Granger,Harry Potter";

    let result = read_csv(csv_data);
    assert_eq!(result.len(), 2);
    assert_eq!(result[0], ("Harry Potter".to_owned(), "Ron Weasley".to_owned()));
    assert_eq!(result[1], ("Hermione Granger".to_owned(), "Harry Potter".to_owned()));
}

#[test]
fn test_remove_duplicates() {
    let edges = vec![
        ("Harry Potter".to_owned(), "Ron Weasley".to_owned()),
        ("Hermione Granger".to_owned(), "Harry Potter".to_owned()),
        ("Harry Potter".to_owned(), "Ron Weasley".to_owned()),
    ];

    let result = remove_duplicates(&edges);

    assert_eq!(result.len(), 2);
    assert_eq!(result[0], ("Harry Potter".to_owned(), "Ron Weasley".to_owned()));
    assert_eq!(result[1], ("Hermione Granger".to_owned(), "Harry Potter".to_owned()));
}

#[test]
fn test_write_txt() {
    let edges = vec![
        ("Harry Potter".to_owned(), "Ron Weasley".to_owned()),
        ("Hermione Granger".to_owned(), "Harry Potter".to_owned()),
    ];

    let file_content = write_txt(&edges);
    assert_eq!(file_content, "Harry Potter,Ron Weasley\nHermione Granger,Harry Potter\n");
}

#[test]
fn read_csv_trims_both_fields() {
    let result = read_csv("  Harry Potter \t,\u{a0}Ron Weasley\u{3000}\n");
    assert_eq!(result, vec![pair("Harry Potter", "Ron Weasley")]);
}

#[test]
fn read_csv_keeps_inner_white_space() {
    let result = read_csv("a  b , c\td ");
    assert_eq!(result, vec![pair("a  b", "c\td")]);
}

#[test]
fn read_csv_skips_lines_with_one_field() {
    let result = read_csv("alone\nA,B\n\n   \nno comma here\nC,D");
    assert_eq!(result, vec![pair("A", "B"), pair("C", "D")]);
}

#[test]
fn read_csv_ignores_fields_after_the_second() {
    let result = read_csv("A,B,C,D\nE,F,");
    assert_eq!(result, vec![pair("A", "B"), pair("E", "F")]);
}

#[test]
fn read_csv_accepts_empty_names() {
    let result = read_csv(",\nA,\n,B\n , ");
    assert_eq!(result, vec![pair("", ""), pair("A", ""), pair("", "B"), pair("", "")]);
}

#[test]
fn read_csv_of_empty_text_is_empty() {
    assert_eq!(read_csv(""), Vec::<(String, String)>::new());
    assert_eq!(read_csv("\n\n"), Vec::<(String, String)>::new());
}

#[test]
fn read_csv_treats_carriage_return_as_white_space() {
    let result = read_csv("A,B\r\nC,D\r\nE\r\n");
    assert_eq!(result, vec![pair("A", "B"), pair("C", "D")]);
}

#[test]
fn read_csv_keeps_the_order_of_the_lines() {
    let result = read_csv("3,4\n1,2\n3,4\n");
    assert_eq!(result, vec![pair("3", "4"), pair("1", "2"), pair("3", "4")]);
}

#[test]
fn read_csv_handles_characters_beyond_ascii() {
    let result = read_csv("Zoë,Łukasz\n日本,語\n");
    assert_eq!(result, vec![pair("Zoë", "Łukasz"), pair("日本", "語")]);
}

#[test]
fn remove_duplicates_of_nothing_is_nothing() {
    let edges: Vec<(String, String)> = Vec::new();
    assert_eq!(remove_duplicates(&edges).len(), 0);
}

#[test]
fn remove_duplicates_counts_two_of_three() {
    let edges = vec![pair("A", "B"), pair("A", "B"), pair("C", "A")];
    let result = remove_duplicates(&edges);
    assert_eq!(result.len(), 2);
    assert_eq!(result, vec![pair("A", "B"), pair("C", "A")]);
}

#[test]
fn remove_duplicates_tells_direction_apart() {
    let edges = vec![pair("A", "B"), pair("B", "A"), pair("A", "B"), pair("B", "A")];
    assert_eq!(remove_duplicates(&edges), vec![pair("A", "B"), pair("B", "A")]);
}

#[test]
fn remove_duplicates_compares_both_names() {
    let edges = vec![pair("A", "B"), pair("A", "C"), pair("D", "B"), pair("A", "B")];
    assert_eq!(remove_duplicates(&edges), vec![pair("A", "B"), pair("A", "C"), pair("D", "B")]);
}

#[test]
fn remove_duplicates_leaves_no_equal_pairs_and_loses_none() {
    let names = ["a", "b", "c", "d"];
    let mut edges = Vec::new();
    for i in 0..40usize {
        edges.push(pair(names[(i * 7) % 4], names[(i * 5 + i / 3) % 4]));
    }
    let result = remove_duplicates(&edges);
    for i in 0..result.len() {
        for j in 0..i {
            assert_ne!(result[i], result[j]);
        }
        assert!(edges.contains(&result[i]));
    }
    for edge in &edges {
        assert!(result.contains(edge));
    }
}

#[test]
fn remove_duplicates_twice_changes_nothing_more() {
    let edges = vec![pair("A", "B"), pair("C", "D"), pair("A", "B"), pair("C", "D"), pair("E", "F")];
    let once = remove_duplicates(&edges);
    let twice = remove_duplicates(&once);
    assert_eq!(once, twice);
}

#[test]
fn remove_duplicates_is_not_misled_by_marks_in_names() {
    let edges = vec![
        pair("a1", "b"),
        pair("a", "1b"),
        pair("a", "b0"),
        pair("0a", "b"),
        pair("", "a0b"),
        pair("a0b", ""),
        pair("a1", "b"),
        pair("", "a0b"),
        pair("1", "0"),
        pair("0", "1"),
        pair("1", "0"),
    ];
    let expected = vec![
        pair("a1", "b"),
        pair("a", "1b"),
        pair("a", "b0"),
        pair("0a", "b"),
        pair("", "a0b"),
        pair("a0b", ""),
        pair("1", "0"),
        pair("0", "1"),
    ];
    assert_eq!(remove_duplicates(&edges), expected);
}

#[test]
fn remove_duplicates_of_many_records() {
    let mut edges = Vec::new();
    for i in 0..20000usize {
        edges.push((format!("n{}", i % 5000), format!("n{}", (i * 7) % 5000)));
    }
    let result = remove_duplicates(&edges);
    assert_eq!(result.len(), 5000);
    assert_eq!(result[0], pair("n0", "n0"));
    assert_eq!(result[4999], pair("n4999", "n4993"));
}

#[test]
fn write_txt_of_nothing_is_empty() {
    let edges: Vec<(String, String)> = Vec::new();
    assert_eq!(write_txt(&edges), "");
}

#[test]
fn write_txt_then_read_csv_gives_the_records_back() {
    let edges = vec![pair("Harry Potter", "Ron Weasley"), pair("Ron Weasley", "Hermione Granger")];
    assert_eq!(read_csv(&write_txt(&edges)), edges);
}

#[test]
fn csv_to_txt_cleans_a_text() {
    let input = " Harry Potter , Ron Weasley\nbroken line\nHarry Potter,Ron Weasley\nHermione Granger,Harry Potter,extra\n";
    assert_eq!(csv_to_txt(input), "Harry Potter,Ron Weasley\nHermione Granger,Harry Potter\n");
}

#[test]
fn csv_to_txt_of_empty_text_is_empty() {
    assert_eq!(csv_to_txt(""), "");
}
