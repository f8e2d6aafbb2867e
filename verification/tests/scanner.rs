use outline::head::{Head, SplitPoint};
use outline::scanner::Scanner;
use outline::token::Token;

#[test]
fn scanner_walks_the_characters() {
    let mut scanner = Scanner::new("aé-");
    assert!(!scanner.is_done());
    assert_eq!(scanner.peek(), Some(&'a'));
    assert_eq!(scanner.pop(), Some(&'a'));
    assert_eq!(scanner.prev(), Some(&'a'));
    assert!(!scanner.take(&'x'));
    assert_eq!(scanner.peek(), Some(&'é'));
    assert!(scanner.take(&'é'));
    assert!(scanner.take(&'-'));
    assert!(scanner.is_done());
    assert_eq!(scanner.peek(), None);
    assert_eq!(scanner.pop(), None);
    assert!(!scanner.take(&'-'));
    assert_eq!(scanner.prev(), Some(&'-'));
}

#[test]
fn scanner_of_an_empty_text_is_done() {
    let mut scanner = Scanner::new("");
    assert!(scanner.is_done());
    assert_eq!(scanner.pop(), None);
}

#[test]
fn head_keeps_its_place_over_another_text() {
    let head = Head { root: Some(3), depth: 2, input: "- a\n" };
    let next = head.clone_new_str("a\n");
    assert_eq!(next.root, Some(3));
    assert_eq!(next.depth, 2);
    assert_eq!(next.input, "a\n");
}

#[test]
fn tokens_compare_by_value() {
    assert_eq!(Token::Text(String::from("a")), Token::Text(String::from("a")));
    assert_ne!(Token::Blob(String::from("a")), Token::Text(String::from("a")));
    assert_eq!(Token::AnchorID(4).clone(), Token::AnchorID(4));
    assert_ne!(Token::Anchor, Token::AnchorID(0));
}

#[test]
fn split_points_follow_the_first_match() {
    assert_eq!(Head::split_at_position(Some(3)), SplitPoint::At(3));
    assert_eq!(Head::split_at_position(Some(0)), SplitPoint::At(0));
    assert_eq!(Head::split_at_position(None), SplitPoint::Incomplete);
    assert_eq!(Head::split_at_position1(Some(3)), SplitPoint::At(3));
    assert_eq!(Head::split_at_position1(Some(0)), SplitPoint::Failed);
    assert_eq!(Head::split_at_position1(None), SplitPoint::Incomplete);
    assert_eq!(Head::split_at_position_complete(Some(2), 5), SplitPoint::At(2));
    assert_eq!(Head::split_at_position_complete(None, 5), SplitPoint::At(5));
    assert_eq!(Head::split_at_position_complete(None, 0), SplitPoint::At(0));
    assert_eq!(Head::split_at_position1_complete(Some(2), 5), SplitPoint::At(2));
    assert_eq!(Head::split_at_position1_complete(Some(0), 5), SplitPoint::Failed);
    assert_eq!(Head::split_at_position1_complete(None, 5), SplitPoint::At(5));
    assert_eq!(Head::split_at_position1_complete(None, 0), SplitPoint::Failed);
}
