use simple_json_parser::json_parser::{
    parse_map, parse_number, parse_pair, parse_string, parse_val, parse_vec, Jnumber, Jobject, Jval,
};

fn chars(s: &str) -> Vec<char> {
    s.chars().collect()
}

/// The value of a parsed number as a float.
fn number_value(n: &Jnumber) -> f64 {
    let (m, scale) = n.to_decimal().unwrap();
    m as f64 / 10f64.powi(scale as i32)
}

#[test]
fn test_map() {
    let raw_json_map = "{\"aaa\":12345, \"bbb\": false, \"ccc\": \"ssss\"}";
    let json_map = chars(raw_json_map);
    let mut idx: usize = 0;
    let map = parse_map(&json_map, &mut idx).unwrap();
    if let Jobject::Jval(Jval::Number(num)) = map.index(String::from("aaa")) {
        assert_eq!(number_value(num), 12345.0);
    } else {
        panic!("expected a number");
    }
    if let Jobject::Jval(Jval::Bool(b)) = map.index(String::from("bbb")) {
        assert_eq!(b, &false)
    } else {
        panic!("expected a bool");
    }
    if let Jobject::Jval(Jval::String(s)) = map.index(String::from("ccc")) {
        assert_eq!(s, "ssss")
    } else {
        panic!("expected a string");
    }
    assert_eq!(idx, raw_json_map.len());
}

#[test]
fn test_pair() {
    let raw_json_pair = "\"asdf\":12345";
    let json_pair = chars(raw_json_pair);
    let mut idx: usize = 0;
    let pair = parse_pair(&json_pair, &mut idx).unwrap();
    assert_eq!(pair.0, "asdf");
    if let Jobject::Jval(Jval::Number(num)) = &pair.1 {
        assert_eq!(number_value(num), 12345.0)
    } else {
        panic!("expected a number");
    }
    assert_eq!(idx, raw_json_pair.len());

    let raw_json_pair = "\"asdf\":123.45";
    let json_pair = chars(raw_json_pair);
    let mut idx: usize = 0;
    let pair = parse_pair(&json_pair, &mut idx).unwrap();
    assert_eq!(pair.0, "asdf");
    if let Jobject::Jval(Jval::Number(num)) = &pair.1 {
        assert_eq!(number_value(num), 123.45)
    } else {
        panic!("expected a number");
    }
    assert_eq!(idx, raw_json_pair.len());

    let raw_json_pair = "\"asdf\": false";
    let json_pair = chars(raw_json_pair);
    let mut idx: usize = 0;
    let pair = parse_pair(&json_pair, &mut idx).unwrap();
    assert_eq!(pair.0, "asdf");
    if let Jobject::Jval(Jval::Bool(b)) = &pair.1 {
        assert_eq!(*b, false)
    } else {
        panic!("expected a bool");
    }
    assert_eq!(idx, raw_json_pair.len());
}

#[test]
fn test_vec() {
    let raw_json_vec = "[12345, \"asdf\", true, false, null, 123.45]";
    let json_vec = chars(raw_json_vec);
    let mut idx: usize = 0;
    let vec = parse_vec(&json_vec, &mut idx).unwrap();
    assert_eq!(vec.len(), 6);
    if let Jobject::Jval(Jval::Number(num)) = vec.index(0) {
        assert_eq!(number_value(num), 12345.0)
    } else {
        panic!("expected a number")
    }
    if let Jobject::Jval(Jval::String(s)) = vec.index(1) {
        assert_eq!(s, "asdf")
    } else {
        panic!("expected a string")
    }
    if let Jobject::Jval(Jval::Bool(b)) = vec.index(2) {
        assert_eq!(b, &true)
    } else {
        panic!("expected a bool")
    }
    if let Jobject::Jval(Jval::Bool(b)) = vec.index(3) {
        assert_eq!(b, &false)
    } else {
        panic!("expected a bool")
    }
    if let Jobject::Jval(Jval::Null) = vec.index(4) {
    } else {
        panic!("expected null")
    }
    if let Jobject::Jval(Jval::Number(num)) = vec.index(5) {
        assert_eq!(number_value(num), 123.45)
    } else {
        panic!("expected a number")
    }
    assert_eq!(idx, raw_json_vec.len());
}

#[test]
fn test_val() {
    let raw_json_val = "\"adf12sdf1s31fsdf\"";
    let json_val = chars(raw_json_val);
    let mut idx: usize = 0;
    let val = parse_val(&json_val, &mut idx).unwrap();
    if let Jval::String(s) = val {
        assert_eq!(s, &raw_json_val[1..raw_json_val.len() - 1])
    } else {
        panic!("expected a string")
    }
    assert_eq!(idx, raw_json_val.len());

    let raw_json_val = "null";
    let json_val = chars(raw_json_val);
    let mut idx: usize = 0;
    let val = parse_val(&json_val, &mut idx).unwrap();
    if let Jval::Null = val {
    } else {
        panic!("expected null")
    }
    assert_eq!(idx, raw_json_val.len());

    let raw_json_val = "true";
    let json_val = chars(raw_json_val);
    let mut idx: usize = 0;
    let val = parse_val(&json_val, &mut idx).unwrap();
    if let Jval::Bool(b) = val {
        assert_eq!(b, true);
    } else {
        panic!("expected a bool")
    }
    assert_eq!(idx, raw_json_val.len());

    let raw_json_val = "false";
    let json_val = chars(raw_json_val);
    let mut idx: usize = 0;
    let val = parse_val(&json_val, &mut idx).unwrap();
    if let Jval::Bool(b) = val {
        assert_eq!(b, false);
    } else {
        panic!("expected a bool")
    }
    assert_eq!(idx, raw_json_val.len());

    let raw_json_val = "12345";
    let json_val = chars(raw_json_val);
    let mut idx: usize = 0;
    let val = parse_val(&json_val, &mut idx).unwrap();
    if let Jval::Number(num) = val {
        assert_eq!(number_value(&num), 12345.0);
    } else {
        panic!("expected a number")
    }
    assert_eq!(idx, raw_json_val.len());

    let raw_json_val = "123.45";
    let json_val = chars(raw_json_val);
    let mut idx: usize = 0;
    let val = parse_val(&json_val, &mut idx).unwrap();
    if let Jval::Number(num) = val {
        assert_eq!(number_value(&num), 123.45);
    } else {
        panic!("expected a number")
    }
    assert_eq!(idx, raw_json_val.len());
}

#[test]
fn test_string() {
    let raw_json_string = "\"adf12sdf1s31fsdf\"";
    let json_string = chars(raw_json_string);
    let mut idx: usize = 0;
    let string = parse_string(&json_string, &mut idx).unwrap();
    assert_eq!(string, &raw_json_string[1..raw_json_string.len() - 1]);
    assert_eq!(idx, raw_json_string.len());
}

#[test]
fn test_number() {
    let json_number = chars("12345");
    let mut idx: usize = 0;
    let number = parse_number(&json_number, &mut idx).unwrap();
    assert_eq!(number_value(&number), 12345.0);
    assert_eq!(idx, 5);

    let json_number = chars("123.45");
    let mut idx: usize = 0;
    let number = parse_number(&json_number, &mut idx).unwrap();
    assert_eq!(number_value(&number), 123.45);
    assert_eq!(idx, 6);

    let json_number = chars("12;3.45");
    let mut idx: usize = 0;
    let number = parse_number(&json_number, &mut idx).unwrap();
    assert_eq!(number_value(&number), 12.0);
    assert_eq!(idx, 2 as usize);
}
