use simple_json_parser::json_parser::{
    is_blank_char, parse, parse_map, parse_number, parse_object, parse_pair, parse_string,
    parse_val, parse_vec, Jnumber, Jobject, Jval, ParseError,
};

fn chars(s: &str) -> Vec<char> {
    s.chars().collect()
}

fn parse_str(s: &str) -> Result<Jobject, ParseError> {
    let mut js = String::from(s);
    parse(&mut js)
}

fn as_digits(o: &Jobject) -> (Vec<u8>, Vec<u8>) {
    match o {
        Jobject::Jval(Jval::Number(n)) => (n.int_digits.clone(), n.frac_digits.clone()),
        _ => panic!("expected a number"),
    }
}

fn as_bool(o: &Jobject) -> bool {
    match o {
        Jobject::Jval(Jval::Bool(b)) => *b,
        _ => panic!("expected a bool"),
    }
}

fn as_str(o: &Jobject) -> String {
    match o {
        Jobject::Jval(Jval::String(s)) => s.clone(),
        _ => panic!("expected a string"),
    }
}

#[test]
fn blank_chars_are_space_tab_newline_return() {
    assert!(is_blank_char(' '));
    assert!(is_blank_char('\t'));
    assert!(is_blank_char('\n'));
    assert!(is_blank_char('\r'));
    assert!(!is_blank_char('a'));
    assert!(!is_blank_char('\u{a0}'));
}

#[test]
fn parse_document_with_nested_values() {
    let doc = " \n{\"accountName\": \"1111\", \"startDate\": true, \"list\": [1, [2.5, {}], {\"x\": null}]}";
    match parse_str(doc).unwrap() {
        Jobject::Jmap(m) => {
            assert_eq!(as_str(m.index(String::from("accountName"))), "1111");
            assert!(as_bool(m.index(String::from("startDate"))));
            match m.index(String::from("list")) {
                Jobject::Jvec(v) => {
                    assert_eq!(v.len(), 3);
                    assert_eq!(as_digits(v.index(0)), (vec![1], vec![]));
                    match v.index(1) {
                        Jobject::Jvec(w) => {
                            assert_eq!(w.len(), 2);
                            assert_eq!(as_digits(w.index(0)), (vec![2], vec![5]));
                            assert!(matches!(w.index(1), Jobject::Jmap(_)));
                        },
                        _ => panic!("expected an array"),
                    }
                    match v.index(2) {
                        Jobject::Jmap(x) => {
                            assert!(matches!(x.index(String::from("x")), Jobject::Jval(Jval::Null)));
                        },
                        _ => panic!("expected an object"),
                    }
                },
                _ => panic!("expected an array"),
            }
        },
        _ => panic!("expected an object"),
    }
}

#[test]
fn later_member_replaces_earlier_one() {
    match parse_str("{\"a\": 1, \"b\": 2, \"a\": 3}").unwrap() {
        Jobject::Jmap(m) => {
            assert_eq!(as_digits(m.index(String::from("a"))), (vec![3], vec![]));
            assert_eq!(as_digits(m.index(String::from("b"))), (vec![2], vec![]));
        },
        _ => panic!("expected an object"),
    }
}

#[test]
fn text_after_the_document_is_not_read() {
    let doc = chars("[1, 2] trailing {");
    let mut idx: usize = 0;
    let v = parse_object(&doc, &mut idx).unwrap();
    assert_eq!(idx, 6);
    match v {
        Jobject::Jvec(v) => assert_eq!(v.len(), 2),
        _ => panic!("expected an array"),
    }
    assert!(parse_str("true false").is_ok());
}

#[test]
fn trailing_comma_is_accepted() {
    match parse_str("[1,]").unwrap() {
        Jobject::Jvec(v) => assert_eq!(v.len(), 1),
        _ => panic!("expected an array"),
    }
    match parse_str("{\"k\":1,}").unwrap() {
        Jobject::Jmap(m) => assert_eq!(as_digits(m.index(String::from("k"))), (vec![1], vec![])),
        _ => panic!("expected an object"),
    }
}

#[test]
fn empty_element_reads_as_number_without_digits() {
    match parse_str("[,7]").unwrap() {
        Jobject::Jvec(v) => {
            assert_eq!(v.len(), 2);
            assert_eq!(as_digits(v.index(0)), (vec![], vec![]));
            assert_eq!(as_digits(v.index(1)), (vec![7], vec![]));
        },
        _ => panic!("expected an array"),
    }
}

#[test]
fn false_is_recognised_by_its_first_four_letters() {
    let s = chars("falsy");
    let mut idx: usize = 0;
    assert!(matches!(parse_val(&s, &mut idx).unwrap(), Jval::Bool(false)));
    assert_eq!(idx, 5);
    let s = chars("fals");
    let mut idx: usize = 0;
    assert!(matches!(parse_val(&s, &mut idx).unwrap(), Jval::Number(_)));
    assert_eq!(idx, 0);
}

#[test]
fn number_digits_and_point() {
    let s = chars("0.5x");
    let mut idx: usize = 3;
    let n = parse_number(&s, &mut idx).unwrap();
    assert_eq!(idx, 3);
    assert_eq!((n.int_digits.clone(), n.frac_digits.clone()), (vec![], vec![]));
    let mut idx: usize = 0;
    let n = parse_number(&s, &mut idx).unwrap();
    assert_eq!(idx, 3);
    assert_eq!((n.int_digits.clone(), n.frac_digits.clone()), (vec![0], vec![5]));
    let s = chars(".25");
    let mut idx: usize = 0;
    let n = parse_number(&s, &mut idx).unwrap();
    assert_eq!((n.int_digits.clone(), n.frac_digits.clone()), (vec![], vec![2, 5]));
    assert_eq!(n.to_decimal(), Some((25, 2)));
}

#[test]
fn to_decimal_exact_values_and_overflow() {
    let n = Jnumber { int_digits: vec![1, 2, 3], frac_digits: vec![4, 5] };
    assert_eq!(n.to_decimal(), Some((12345, 2)));
    let n = Jnumber { int_digits: vec![], frac_digits: vec![] };
    assert_eq!(n.to_decimal(), Some((0, 0)));
    let n = Jnumber { int_digits: vec![1, 8, 4, 4, 6, 7, 4, 4, 0, 7, 3, 7, 0, 9, 5, 5, 1, 6, 1, 5], frac_digits: vec![] };
    assert_eq!(n.to_decimal(), Some((u64::MAX, 0)));
    let n = Jnumber { int_digits: vec![1, 8, 4, 4, 6, 7, 4, 4, 0, 7, 3, 7, 0, 9, 5, 5, 1, 6, 1, 6], frac_digits: vec![] };
    assert_eq!(n.to_decimal(), None);
    let n = Jnumber { int_digits: vec![9; 19], frac_digits: vec![9; 19] };
    assert_eq!(n.to_decimal(), None);
}

#[test]
fn errors_unexpected_end() {
    assert_eq!(parse_str("").err(), Some(ParseError::UnexpectedEnd));
    assert_eq!(parse_str("   ").err(), Some(ParseError::UnexpectedEnd));
    assert_eq!(parse_str("{\"a\":1").err(), Some(ParseError::UnexpectedEnd));
    assert_eq!(parse_str("[1, 2").err(), Some(ParseError::UnexpectedEnd));
    assert_eq!(parse_str("{\"a\"").err(), Some(ParseError::UnexpectedEnd));
    let s = chars("1");
    let mut idx: usize = 1;
    assert_eq!(parse_number(&s, &mut idx).err(), Some(ParseError::UnexpectedEnd));
}

#[test]
fn errors_by_kind() {
    let s = chars("[1]");
    let mut idx: usize = 0;
    assert_eq!(parse_map(&s, &mut idx).err(), Some(ParseError::ExpectedLeftBrace));
    let s = chars("{}");
    let mut idx: usize = 0;
    assert_eq!(parse_vec(&s, &mut idx).err(), Some(ParseError::ExpectedLeftBracket));
    assert_eq!(parse_str("{\"a\" :1}").err(), Some(ParseError::ExpectedColon));
    assert_eq!(parse_str("[1 2]").err(), Some(ParseError::ExpectedComma));
    assert_eq!(parse_str("{\"a\":1 \"b\":2}").err(), Some(ParseError::ExpectedComma));
    assert_eq!(parse_str("{a:1}").err(), Some(ParseError::ExpectedOpenQuote));
    assert_eq!(parse_str("\"abc").err(), Some(ParseError::ExpectedCloseQuote));
    assert_eq!(parse_str("1.2.3").err(), Some(ParseError::RepeatedPoint));
    let s = chars("x");
    let mut idx: usize = 0;
    assert_eq!(parse_string(&s, &mut idx).err(), Some(ParseError::ExpectedOpenQuote));
    let s = chars("\"k\"1");
    let mut idx: usize = 0;
    assert_eq!(parse_pair(&s, &mut idx).err(), Some(ParseError::ExpectedColon));
}

#[test]
fn strings_keep_their_characters() {
    let s = chars("\"h\u{e9}llo w\u{f6}rld\" rest");
    let mut idx: usize = 0;
    let t = parse_string(&s, &mut idx).unwrap();
    assert_eq!(t, "h\u{e9}llo w\u{f6}rld");
    assert_eq!(idx, 13);
    assert_eq!(as_str(&parse_str("\"\u{4e2d}\u{6587}\"").unwrap()), "\u{4e2d}\u{6587}");
}

#[test]
fn parse_leaves_the_input_unchanged() {
    let mut js = String::from(" [true]");
    let r = parse(&mut js).unwrap();
    assert_eq!(js, " [true]");
    match r {
        Jobject::Jvec(v) => assert!(as_bool(v.index(0))),
        _ => panic!("expected an array"),
    }
}

#[test]
fn positions_move_forward_within_the_input() {
    let s = chars("  {\"a\": [1, 2]} , 3");
    let mut idx: usize = 0;
    parse_object(&s, &mut idx).unwrap();
    assert_eq!(idx, 15);
    let mut idx: usize = 16;
    let n = parse_object(&s, &mut idx);
    assert!(n.is_ok());
    assert_eq!(idx, 16);
    let mut idx: usize = 17;
    parse_object(&s, &mut idx).unwrap();
    assert_eq!(idx, s.len());
}

#[test]
fn trailing_text_after_an_array_or_object_is_ignored() {
    for tail in ["", " ", "xyz", "[[[", "123", "\"open"] {
        let doc = format!("[1, {{\"k\": [true]}}]{}", tail);
        match parse_str(&doc).unwrap() {
            Jobject::Jvec(v) => {
                assert_eq!(v.len(), 2);
                assert_eq!(as_digits(v.index(0)), (vec![1], vec![]));
            },
            _ => panic!("expected an array"),
        }
    }
}

#[test]
fn leading_blanks_are_ignored() {
    for lead in ["", " ", "\n\t\r ", "    "] {
        let doc = format!("{}{{\"k\": 42}}", lead);
        match parse_str(&doc).unwrap() {
            Jobject::Jmap(m) => assert_eq!(as_digits(m.index(String::from("k"))), (vec![4, 2], vec![])),
            _ => panic!("expected an object"),
        }
        let doc = format!("{}", lead);
        assert_eq!(parse_str(&doc).err(), Some(ParseError::UnexpectedEnd));
    }
}

#[test]
fn text_before_the_start_only_moves_positions() {
    let s = chars("[1, \"x\"]");
    let mut idx: usize = 0;
    parse_object(&s, &mut idx).unwrap();
    let t = chars("garbage[1, \"x\"]");
    let mut jdx: usize = 7;
    parse_object(&t, &mut jdx).unwrap();
    assert_eq!(jdx, idx + 7);
}
