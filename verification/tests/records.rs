use clustering::cmd_line::CommandArgs;
use clustering::records::{
    chars_of, code_record, edge_from_groups, edge_record, header_record, is_whitespace, parse_i32,
    parse_u32, parse_usize, width_from_groups,
};

fn groups(texts: &[Option<&str>]) -> Vec<Option<String>> {
    texts.iter().map(|t| t.map(|s| s.to_string())).collect()
}

#[test]
fn edge_records() {
    assert_eq!(edge_record("1 2 3"), Some((1, 2, 3)));
    assert_eq!(edge_record("  17\t4   -250  "), Some((17, 4, -250)));
    assert_eq!(edge_record("5 6 7 trailing words"), Some((5, 6, 7)));
    assert_eq!(edge_record("4294967295 0 2147483647"), Some((4294967295, 0, 2147483647)));
    assert_eq!(edge_record("1 2 -2147483648"), Some((1, 2, -2147483648)));
}

#[test]
fn edge_record_takes_the_leftmost_match() {
    // The search starts where three numbers first stand in a row.
    assert_eq!(edge_record("edge: 8 9 10"), Some((8, 9, 10)));
    assert_eq!(edge_record("x1 2 3 4"), Some((1, 2, 3)));
    // A weight stops at the first character that is no digit.
    assert_eq!(edge_record("1 2 3.5"), Some((1, 2, 3)));
}

#[test]
fn lines_that_record_no_edge() {
    assert_eq!(edge_record(""), None);
    assert_eq!(edge_record("1 2"), None);
    assert_eq!(edge_record("one two three"), None);
    assert_eq!(edge_record("1,2,3"), None);
    // Nothing after the weight reaches across a line end.
    assert_eq!(edge_record("1 2 3\n"), None);
    assert_eq!(edge_record("1 2 3 \n"), None);
    // Numbers that do not fit their type.
    assert_eq!(edge_record("4294967296 1 1"), None);
    assert_eq!(edge_record("1 4294967296 1"), None);
    assert_eq!(edge_record("1 2 2147483648"), None);
    assert_eq!(edge_record("1 2 -2147483649"), None);
    // More than one minus sign is part of the match and spells no number.
    assert_eq!(edge_record("1 2 --3"), None);
    // Digits outside ASCII are matched by the pattern and spell no number.
    assert_eq!(edge_record("\u{0661} 2 3"), None);
}

#[test]
fn edge_from_captured_groups() {
    let g = groups(&[Some("1 2 3"), Some("1"), Some("2"), Some("3")]);
    assert_eq!(edge_from_groups(&g), Some((1, 2, 3)));
    let g = groups(&[Some("10 20 -30"), Some("10"), Some("20"), Some("-30")]);
    assert_eq!(edge_from_groups(&g), Some((10, 20, -30)));
    let g = groups(&[Some("1 2 3"), Some("1"), Some("2")]);
    assert_eq!(edge_from_groups(&g), None);
    let g = groups(&[Some("1 2 3"), Some("1"), None, Some("3")]);
    assert_eq!(edge_from_groups(&g), None);
    let g = groups(&[Some("1 2 x"), Some("1"), Some("2"), Some("x")]);
    assert_eq!(edge_from_groups(&g), None);
    assert_eq!(edge_from_groups(&Vec::new()), None);
}

#[test]
fn header_records() {
    assert_eq!(header_record("200000 24 \n"), Some(24));
    assert_eq!(header_record("  5   4 codes"), Some(4));
    // The number of vertices is not read, however long it is.
    assert_eq!(header_record("99999999999999999999 7 \n"), Some(7));
    // White space has to follow the width.
    assert_eq!(header_record("200000 24"), None);
    assert_eq!(header_record("5 4"), None);
    assert_eq!(header_record("5"), None);
    assert_eq!(header_record(""), None);
    assert_eq!(header_record("16 4294967296 \n"), None);
}

#[test]
fn width_from_captured_groups() {
    let g = groups(&[Some("5 4 "), Some("5"), Some("4")]);
    assert_eq!(width_from_groups(&g), Some(4));
    let g = groups(&[Some("5 4 "), Some("5"), None]);
    assert_eq!(width_from_groups(&g), None);
    let g = groups(&[Some("5 4 "), Some("5")]);
    assert_eq!(width_from_groups(&g), None);
    let g = groups(&[Some("5 x "), Some("5"), Some("x")]);
    assert_eq!(width_from_groups(&g), None);
}

#[test]
fn code_records() {
    assert_eq!(code_record("1 0 1 1"), Some(0b1011));
    assert_eq!(code_record("0 0 0 0 0"), Some(0));
    assert_eq!(code_record("1 1 1 1 1\n"), Some(31));
    assert_eq!(code_record("\t10\u{a0}01\u{3000}"), Some(9));
    assert_eq!(code_record("+101"), Some(5));
    assert_eq!(code_record(&"1".repeat(32)), Some(u32::MAX));
    assert_eq!(code_record(&format!("{}1", "0 ".repeat(40))), Some(1));
}

#[test]
fn lines_that_record_no_code() {
    assert_eq!(code_record(""), None);
    assert_eq!(code_record("   \n"), None);
    assert_eq!(code_record("1 0 2"), None);
    assert_eq!(code_record("-1"), None);
    assert_eq!(code_record("+"), None);
    assert_eq!(code_record("1 0 x"), None);
    assert_eq!(code_record(&"1".repeat(33)), None);
}

#[test]
fn code_records_agree_with_the_standard_library() {
    let lines = ["1 0 1", "", " ", "+1", "-1", "++1", "12", "0001", "1\u{2003}1", "1\u{200b}1", "1_0"];
    for line in lines {
        let mut stripped = line.to_string();
        stripped.retain(|c| !c.is_whitespace());
        assert_eq!(code_record(line), u32::from_str_radix(&stripped, 2).ok());
    }
}

#[test]
fn numbers_agree_with_the_standard_library() {
    let texts = [
        "0", "7", "+7", "-7", "007", "", "+", "-", "+-7", "--7", "7 ", " 7", "7a", "4294967295",
        "4294967296", "2147483647", "2147483648", "-2147483648", "-2147483649", "-0",
        "18446744073709551615", "18446744073709551616", "99999999999999999999999", "\u{0667}",
    ];
    for text in texts {
        assert_eq!(parse_u32(text), text.parse::<u32>().ok());
        assert_eq!(parse_i32(text), text.parse::<i32>().ok());
        assert_eq!(parse_usize(text), text.parse::<usize>().ok());
    }
}

#[test]
fn white_space_agrees_with_the_standard_library() {
    for u in 0..0x11_0000u32 {
        if let Some(c) = char::from_u32(u) {
            assert_eq!(is_whitespace(c), c.is_whitespace());
        }
    }
}

#[test]
fn characters_of_a_string() {
    assert_eq!(chars_of(""), Vec::<char>::new());
    assert_eq!(chars_of("a\u{e9}\u{4e2d}z"), vec!['a', '\u{e9}', '\u{4e2d}', 'z']);
}

#[test]
fn command_arguments() {
    let args = CommandArgs::from_values("edges.txt", Some("4"), false);
    assert_eq!(args.filename, "edges.txt");
    assert_eq!(args.num_clusters, 4);
    assert_eq!(args.hamming, false);
    let args = CommandArgs::from_values("codes.txt", Some("four"), true);
    assert_eq!(args.num_clusters, 0);
    assert_eq!(args.hamming, true);
    assert_eq!(CommandArgs::from_values("f", None, false).num_clusters, 0);
    assert_eq!(CommandArgs::from_values("f", Some("-3"), false).num_clusters, 0);
    assert_eq!(CommandArgs::from_values("f", Some(""), false).num_clusters, 0);
    assert_eq!(CommandArgs::from_values("f", Some("+12"), false).num_clusters, 12);
}
