use outline::grammar::{Expected, ParseError};
use outline::node::{NodeElement, NodeProperty};
use outline::parser::{
    blob, get_depth, isolate_contents, node_content, node_element, parse_id, parse_numbers,
    prop_blob, prop_rbind, property, uuid, word,
};

#[test]
fn uuid_test() {
    let res = uuid("#(1.2.3)");
    assert_eq!(res, Ok(("", vec![1, 2, 3])));
}

#[test]
fn blob_test() {
    let res = blob("{blob}(1.2.3)");
    assert_eq!(res, Ok(("", (String::from("blob"), vec![1, 2, 3]))));
}

#[test]
fn prop_blob_test() {
    let res = prop_blob("blob");
    assert_eq!(res, Ok(("", NodeProperty::Blob)));
}

#[test]
fn rbind_test() {
    let res = prop_rbind("rbind[0,1,2]");
    assert_eq!(res, Ok(("", NodeProperty::Rbind(vec![0, 1, 2]))))
}

#[test]
fn prop_test() {
    let res = property("<blob>");
    assert_eq!(res, Ok(("", NodeProperty::Blob)));
}

#[test]
fn word_test() {
    let res = word("word ");
    assert_eq!(res, Ok((" ", "word")))
}

#[test]
fn get_depth_test() {
    let res = get_depth("\n  -");
    assert_eq!(res, Ok(("\n  -", 2)))
}

#[test]
fn node_contet_test() {
    let res = node_content("- ciao #(1.2.3) {eccomi}(1.2.3) sono io <blob> <rbind[0,1]>\n");
    assert_eq!(
        res,
        Ok((
            "",
            vec![
                NodeElement::Word("ciao"),
                NodeElement::TempRef(vec![1, 2, 3]),
                NodeElement::TempBlob((String::from("eccomi"), vec![1, 2, 3])),
                NodeElement::Word("sono"),
                NodeElement::Word("io"),
                NodeElement::Property(NodeProperty::Blob),
                NodeElement::Property(NodeProperty::Rbind(vec![0, 1]))
            ]
        ))
    );
}

fn failure(remaining: usize, expected: Expected) -> ParseError {
    ParseError { remaining, expected }
}

#[test]
fn number_reads_all_leading_digits() {
    assert_eq!(parse_numbers("416"), Ok(("", 416)));
    assert_eq!(parse_numbers("12b"), Ok(("b", 12)));
    assert_eq!(parse_numbers("0007.1"), Ok((".1", 7)));
    assert_eq!(parse_numbers("0"), Ok(("", 0)));
}

#[test]
fn number_needs_a_digit() {
    assert_eq!(parse_numbers("b1"), Err(failure(2, Expected::Digit)));
    assert_eq!(parse_numbers(""), Err(failure(0, Expected::Digit)));
}

#[test]
fn number_has_to_fit_an_index() {
    let largest = format!("{}", usize::MAX);
    assert_eq!(parse_numbers(&largest), Ok(("", usize::MAX)));
    let too_large = format!("{}0", usize::MAX);
    assert_eq!(
        parse_numbers(&too_large),
        Err(failure(too_large.len(), Expected::Number))
    );
    let one_more = "18446744073709551616 rest";
    if usize::MAX as u128 == 18446744073709551615u128 {
        assert_eq!(parse_numbers(one_more), Err(failure(25, Expected::Number)));
    }
}

#[test]
fn address_is_dotted_numbers_in_parentheses() {
    assert_eq!(parse_id("(7)"), Ok(("", vec![7])));
    assert_eq!(parse_id("(0.1.0) tail"), Ok((" tail", vec![0, 1, 0])));
}

#[test]
fn address_failures_name_what_was_expected() {
    assert_eq!(parse_id("1.2)"), Err(failure(4, Expected::OpenParen)));
    assert_eq!(parse_id("(x)"), Err(failure(2, Expected::Digit)));
    assert_eq!(parse_id("(1.2"), Err(failure(0, Expected::CloseParen)));
    assert_eq!(parse_id("(1.2]"), Err(failure(1, Expected::CloseParen)));
    // a separator that no number follows is not read
    assert_eq!(parse_id("(1.)"), Err(failure(2, Expected::CloseParen)));
}

#[test]
fn reference_needs_its_hash() {
    assert_eq!(uuid("(1.2.3)"), Err(failure(7, Expected::Hash)));
    assert_eq!(uuid("#1"), Err(failure(1, Expected::OpenParen)));
    assert_eq!(uuid("#(9.9.9)x"), Ok(("x", vec![9, 9, 9])));
}

#[test]
fn blob_text_runs_to_the_first_closing_brace() {
    assert_eq!(
        blob("{a b {c}(4)}(5)"),
        Ok(("}(5)", (String::from("a b {c"), vec![4])))
    );
    assert_eq!(blob("{}(0)"), Ok(("", (String::new(), vec![0]))));
    assert_eq!(
        blob("{çé}(1)"),
        Ok(("", (String::from("çé"), vec![1])))
    );
}

#[test]
fn blob_failures_name_what_was_expected() {
    assert_eq!(blob("blob}(1)"), Err(failure(8, Expected::OpenBrace)));
    assert_eq!(blob("{blob(1)"), Err(failure(7, Expected::CloseBrace)));
    assert_eq!(blob("{blob}1"), Err(failure(1, Expected::OpenParen)));
}

#[test]
fn rbind_failures_name_what_was_expected() {
    assert_eq!(prop_rbind("bind[0]"), Err(failure(7, Expected::RbindKeyword)));
    assert_eq!(prop_rbind("rbind(0)"), Err(failure(3, Expected::OpenBracket)));
    assert_eq!(prop_rbind("rbind[]"), Err(failure(1, Expected::Digit)));
    assert_eq!(prop_rbind("rbind[0,1"), Err(failure(0, Expected::CloseBracket)));
    assert_eq!(prop_rbind("rbind[0;1]"), Err(failure(3, Expected::CloseBracket)));
}

#[test]
fn property_is_one_of_two_between_angles() {
    assert_eq!(
        property("<rbind[3,4]> x"),
        Ok((" x", NodeProperty::Rbind(vec![3, 4])))
    );
    assert_eq!(property("blob>"), Err(failure(5, Expected::OpenAngle)));
    assert_eq!(property("<blob"), Err(failure(0, Expected::CloseAngle)));
    assert_eq!(property("<blobs>"), Err(failure(2, Expected::CloseAngle)));
    // the failure of the second alternative is the one reported
    assert_eq!(property("<color>"), Err(failure(6, Expected::RbindKeyword)));
    assert_eq!(prop_blob("blo"), Err(failure(3, Expected::BlobKeyword)));
}

#[test]
fn word_is_the_longest_run_without_whitespace() {
    assert_eq!(word("A.B"), Ok(("", "A.B")));
    assert_eq!(word("a\tb"), Ok(("\tb", "a")));
    assert_eq!(word(" a"), Ok((" a", "")));
    assert_eq!(word(""), Ok(("", "")));
    assert_eq!(word("naïve\r\n"), Ok(("\r\n", "naïve")));
}

#[test]
fn element_alternatives_are_tried_in_order() {
    assert_eq!(
        node_element("#(1) x"),
        Ok((" x", NodeElement::TempRef(vec![1])))
    );
    assert_eq!(
        node_element("<blob> x"),
        Ok((" x", NodeElement::Property(NodeProperty::Blob)))
    );
    assert_eq!(
        node_element("{t}(2) x"),
        Ok((" x", NodeElement::TempBlob((String::from("t"), vec![2]))))
    );
    // what is no reference, property or blob is a word
    assert_eq!(node_element("#(1 x"), Ok((" x", NodeElement::Word("#(1"))));
    assert_eq!(node_element("<blub> x"), Ok((" x", NodeElement::Word("<blub>"))));
    assert_eq!(node_element("{t} x"), Ok((" x", NodeElement::Word("{t}"))));
    let too_large = format!("#({}0)", usize::MAX);
    assert_eq!(
        node_element(&too_large),
        Ok(("", NodeElement::Word(too_large.as_str())))
    );
}

#[test]
fn content_segment_ends_at_the_line_feed() {
    assert_eq!(
        isolate_contents(" a  b\n - c\n"),
        Ok((
            "\n - c\n",
            vec![
                NodeElement::Word(""),
                NodeElement::Word("a"),
                NodeElement::Word("b")
            ]
        ))
    );
    assert_eq!(isolate_contents(" a b"), Err(failure(4, Expected::Newline)));
}

#[test]
fn last_word_needs_no_trailing_space() {
    assert_eq!(
        node_content("- A.B\n"),
        Ok(("", vec![NodeElement::Word("A.B")]))
    );
    assert_eq!(node_content("-\n"), Ok(("", vec![])));
}

#[test]
fn elements_stop_where_no_whitespace_follows() {
    assert_eq!(
        node_content("- a #(1)b c\nnext"),
        Ok((
            "next",
            vec![NodeElement::Word("a"), NodeElement::TempRef(vec![1])]
        ))
    );
}

#[test]
fn node_line_needs_marker_and_line_feed() {
    assert_eq!(node_content("a\n"), Err(failure(2, Expected::Marker)));
    assert_eq!(node_content("- a"), Err(failure(2, Expected::Newline)));
}

#[test]
fn depth_counts_spaces_after_blank_lines() {
    assert_eq!(get_depth("- a\n"), Ok(("- a\n", 0)));
    assert_eq!(get_depth("\n\n    - a\n"), Ok(("\n\n    - a\n", 4)));
    assert_eq!(get_depth("  a\n"), Err(failure(2, Expected::Marker)));
    assert_eq!(get_depth("\n \n -"), Err(failure(3, Expected::Marker)));
    assert_eq!(get_depth(""), Err(failure(0, Expected::Marker)));
    assert_eq!(get_depth("\t- a\n"), Err(failure(5, Expected::Marker)));
}

#[test]
fn failure_offset_counts_from_the_start() {
    let text = "(1.2]";
    let err = parse_id(text).unwrap_err();
    assert_eq!(err.offset(text.len()), 4);
    assert_eq!(failure(9, Expected::Digit).offset(4), 0);
}
