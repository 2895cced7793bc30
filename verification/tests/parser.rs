use json_pointer::{parse, Pointer, Step};
use std::str::FromStr;

fn test_parse(s: &str) -> Vec<Step> {
    parse(s).unwrap().into_steps()
}

#[test]
fn empty_hash() {
    let p = test_parse("#");
    assert_eq!(0, p.len());
}

#[test]
fn empty_trailing_name() {
    let p = test_parse("#/");
    assert_eq!(1, p.len());
    assert_eq!(Step::Name("".to_owned()), p[0]);
}

#[test]
fn empty_name_in_middle() {
    let p = test_parse("#//");
    assert_eq!(2, p.len());
    assert_eq!(Step::Name("".to_owned()), p[0]);
    assert_eq!(Step::Name("".to_owned()), p[1]);
}

#[test]
fn index() {
    let p = test_parse("/21");
    assert_eq!(1, p.len());
    assert_eq!(Step::Index(21), p[0]);
}

#[test]
fn leading_zeros_as_string() {
    let p = test_parse("/007");
    assert_eq!(Step::Name("007".to_owned()), p[0]);
}

#[test]
fn escape_tilda() {
    let p = test_parse("/a~0/~0b/c~0d");
    assert_eq!(3, p.len());
    assert_eq!(Step::Name("a~".to_owned()), p[0]);
    assert_eq!(Step::Name("~b".to_owned()), p[1]);
    assert_eq!(Step::Name("c~d".to_owned()), p[2]);
}

#[test]
fn escape_slash() {
    let p = test_parse("/a~1/~1b/c~1d");
    assert_eq!(3, p.len());
    assert_eq!(Step::Name("a/".to_owned()), p[0]);
    assert_eq!(Step::Name("/b".to_owned()), p[1]);
    assert_eq!(Step::Name("c/d".to_owned()), p[2]);
}

#[test]
fn fails_on_unknown_escape_seq() {
    let r = parse("/a~2");
    assert!(r.is_err())
}

#[test]
fn empty_text() {
    let p = test_parse("");
    assert_eq!(0, p.len());
}

#[test]
fn hash_is_indifferent() {
    assert_eq!(test_parse("#/a/1/-"), test_parse("/a/1/-"));
    assert_eq!(test_parse("#"), test_parse(""));
    assert_eq!(test_parse("#/"), test_parse("/"));
}

#[test]
fn zero_index() {
    let p = test_parse("/0");
    assert_eq!(Step::Index(0), p[0]);
}

#[test]
fn zero_then_letters_is_name() {
    let p = test_parse("/0x");
    assert_eq!(Step::Name("0x".to_owned()), p[0]);
}

#[test]
fn new_element_marker() {
    let p = test_parse("/-");
    assert_eq!(1, p.len());
    assert_eq!(Step::NewElement, p[0]);
}

#[test]
fn dash_then_more_is_name() {
    let p = test_parse("/-x/-1");
    assert_eq!(Step::Name("-x".to_owned()), p[0]);
    assert_eq!(Step::Name("-1".to_owned()), p[1]);
}

#[test]
fn digits_then_letters_fails() {
    assert!(parse("/12a").is_err());
}

#[test]
fn missing_leading_separator_fails() {
    assert!(parse("abc").is_err());
    assert!(parse("21").is_err());
    assert!(parse("##").is_err());
}

#[test]
fn overflowing_numeral_is_name() {
    let p = test_parse("/99999999999999999999999999");
    assert_eq!(Step::Name("99999999999999999999999999".to_owned()), p[0]);
}

#[test]
fn trailing_tilde_at_input_end_is_literal() {
    let p = test_parse("/a~");
    assert_eq!(Step::Name("a~".to_owned()), p[0]);
}

#[test]
fn tilde_before_separator_fails() {
    assert!(parse("/a~/b").is_err());
    assert!(parse("/~/b").is_err());
}

#[test]
fn double_zero_is_name() {
    let p = test_parse("/00");
    assert_eq!(Step::Name("00".to_owned()), p[0]);
}

#[test]
fn dash_zero_is_name() {
    let p = test_parse("/-0");
    assert_eq!(Step::Name("-0".to_owned()), p[0]);
}

#[test]
fn hash_then_residue_fails() {
    assert!(parse("#x").is_err());
}

#[test]
fn from_str_parses() {
    let p: Vec<Step> = Pointer::from_str("/a/0").unwrap().into_steps();
    assert_eq!(vec![Step::Name("a".to_owned()), Step::Index(0)], p);
}

#[test]
fn parse_error_has_text() {
    let e = parse("/a~9").unwrap_err();
    assert!(!e.error.is_empty());
}
