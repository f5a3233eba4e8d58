use serde_json::Value;
use vexra::filter::Filter;

/// Evaluates a parsed filter against JSON metadata, turning number texts
/// into values the way the database does.
fn eval(filter: &Filter, metadata: &Value) -> bool {
    match filter {
        Filter::Equals { field, value, numeric } => {
            let expected = if *numeric {
                let n: f64 = value.parse().unwrap();
                if n == n.floor() {
                    Value::Number(serde_json::Number::from_f64(n).unwrap_or(0.into()))
                } else {
                    Value::String(value.clone())
                }
            } else {
                Value::String(value.clone())
            };
            match (expected, metadata.get(field)) {
                (Value::Number(n), Some(Value::Number(m))) => n.as_f64() == m.as_f64(),
                (expected, got) => got == Some(&expected),
            }
        }
        Filter::GreaterThan { field, value, or_equal } => {
            let mut bound: f64 = value.parse().unwrap();
            if *or_equal {
                bound -= f64::EPSILON;
            }
            metadata.get(field).and_then(|v| v.as_f64()).is_some_and(|v| v > bound)
        }
        Filter::LessThan { field, value, or_equal } => {
            let mut bound: f64 = value.parse().unwrap();
            if *or_equal {
                bound += f64::EPSILON;
            }
            metadata.get(field).and_then(|v| v.as_f64()).is_some_and(|v| v < bound)
        }
        Filter::In { field, values } => metadata
            .get(field)
            .and_then(|v| v.as_str())
            .is_some_and(|s| values.iter().any(|x| x == s)),
        Filter::Contains { field, value } => metadata
            .get(field)
            .and_then(|v| v.as_str())
            .is_some_and(|s| s.contains(value.as_str())),
        Filter::And(l, r) => eval(l, metadata) && eval(r, metadata),
        Filter::Or(l, r) => eval(l, metadata) || eval(r, metadata),
    }
}

fn json(text: &str) -> Value {
    serde_json::from_str(text).unwrap()
}

#[test]
fn test_equals_string() {
    let filter = Filter::eq("category", "tech");
    assert!(eval(&filter, &json(r#"{"category": "tech"}"#)));
    assert!(!eval(&filter, &json(r#"{"category": "science"}"#)));
}

#[test]
fn test_contains() {
    let filter = Filter::contains("title", "vector");
    assert!(eval(&filter, &json(r#"{"title": "vector database"}"#)));
    assert!(!eval(&filter, &json(r#"{"title": "relational"}"#)));
}

#[test]
fn test_parse_equality() {
    let filter = Filter::parse(r#"category = "tech""#).unwrap();
    assert!(eval(&filter, &json(r#"{"category": "tech"}"#)));
}

#[test]
fn test_parse_and() {
    let filter = Filter::parse(r#"a = "1" AND b > 5"#).unwrap();
    assert!(eval(&filter, &json(r#"{"a": "1", "b": 10}"#)));
    assert!(!eval(&filter, &json(r#"{"a": "2", "b": 10}"#)));
}

#[test]
fn test_parse_contains() {
    let filter = Filter::parse(r#"title CONTAINS "hello""#).unwrap();
    assert!(eval(&filter, &json(r#"{"title": "hello world"}"#)));
    assert!(!eval(&filter, &json(r#"{"title": "world"}"#)));
}

fn equals(f: &Filter) -> (&str, &str, bool) {
    match f {
        Filter::Equals { field, value, numeric } => (field.as_str(), value.as_str(), *numeric),
        other => panic!("not an equality: {:?}", other),
    }
}

#[test]
fn parse_quoted_equality_keeps_inner_text() {
    let f = Filter::parse(r#"  category =   "tech news"  "#).unwrap();
    assert_eq!(equals(&f), ("category", "tech news", false));
}

#[test]
fn parse_bare_integer_is_numeric() {
    let f = Filter::parse("year = 2024").unwrap();
    assert_eq!(equals(&f), ("year", "2024", true));
    let f = Filter::parse("n = -1e3").unwrap();
    assert_eq!(equals(&f), ("n", "-1e3", true));
}

#[test]
fn parse_bare_decimal_or_word_is_string() {
    let f = Filter::parse("x = 3.5").unwrap();
    assert_eq!(equals(&f), ("x", "3.5", false));
    let f = Filter::parse("x = hello").unwrap();
    assert_eq!(equals(&f), ("x", "hello", false));
    let f = Filter::parse(r#"x = "abc"#).unwrap();
    assert_eq!(equals(&f), ("x", "abc", false));
}

#[test]
fn parse_comparisons() {
    match Filter::parse("score > 10").unwrap() {
        Filter::GreaterThan { field, value, or_equal } => {
            assert_eq!((field.as_str(), value.as_str(), or_equal), ("score", "10", false));
        }
        other => panic!("{:?}", other),
    }
    match Filter::parse("score < .5").unwrap() {
        Filter::LessThan { field, value, or_equal } => {
            assert_eq!((field.as_str(), value.as_str(), or_equal), ("score", ".5", false));
        }
        other => panic!("{:?}", other),
    }
    match Filter::parse("score > -INF").unwrap() {
        Filter::GreaterThan { value, .. } => assert_eq!(value, "-INF"),
        other => panic!("{:?}", other),
    }
}

#[test]
fn parse_greater_or_less_or_equal() {
    match Filter::parse("score >= 1").unwrap() {
        Filter::GreaterThan { field, value, or_equal } => {
            assert_eq!((field.as_str(), value.as_str(), or_equal), ("score", "1", true));
        }
        other => panic!("{:?}", other),
    }
    match Filter::parse("b <= .5").unwrap() {
        Filter::LessThan { field, value, or_equal } => {
            assert_eq!((field.as_str(), value.as_str(), or_equal), ("b", ".5", true));
        }
        other => panic!("{:?}", other),
    }
    let f = Filter::parse("score >= 1").unwrap();
    assert!(eval(&f, &json(r#"{"score": 1}"#)));
    assert!(eval(&f, &json(r#"{"score": 2}"#)));
    assert!(!eval(&f, &json(r#"{"score": 0}"#)));
    assert_eq!(Filter::parse("score >= x").unwrap_err(), "Invalid number in filter: score >= x");
    // An `=` not right after `>` or `<` is an equality.
    let f = Filter::parse(r#"op = ">=""#).unwrap();
    assert_eq!(equals(&f), ("op", ">=", false));
}

#[test]
fn comparison_numbers_follow_std_float_parsing() {
    let texts = [
        "1", "-1", "+1", "1.", ".5", "-.5", "1e5", "1E-5", "1e", "e5", ".", "", "inf", "-INF", "Infinity",
        "infinity", "nan", "NaN", "+nan", "1_0", "0x10", "1.5.2", "--1", "1e+", "1e+3", " ", "abc", "1 2",
    ];
    for t in texts {
        let accepted = Filter::parse(&format!("x > {}", t)).is_ok();
        assert_eq!(accepted, t.trim().parse::<f64>().is_ok(), "text {:?}", t);
    }
}

#[test]
fn parse_bad_number_is_rejected() {
    let e = Filter::parse("score > many").unwrap_err();
    assert_eq!(e, "Invalid number in filter: score > many");
    let e = Filter::parse("a = 1 AND  score < 1e ").unwrap_err();
    assert_eq!(e, "Invalid number in filter: score < 1e");
    assert!(Filter::parse("x > 1.").is_ok());
    assert!(Filter::parse("x > .").is_err());
    assert!(Filter::parse("x > 1_000").is_err());
}

#[test]
fn parse_unknown_form_is_rejected() {
    let e = Filter::parse("  just words  ").unwrap_err();
    assert_eq!(e, "Unable to parse filter: just words");
}

#[test]
fn parse_in_list_is_a_set() {
    match Filter::parse(r#"tag IN ("a", "b" ,a, "")"#).unwrap() {
        Filter::In { field, values } => {
            assert_eq!(field, "tag");
            let mut v = values.clone();
            v.sort();
            v.dedup();
            assert_eq!(v, vec!["".to_string(), "a".to_string(), "b".to_string()]);
        }
        other => panic!("{:?}", other),
    }
    let f = Filter::parse(r#"tag IN ("x", "y")"#).unwrap();
    assert!(eval(&f, &json(r#"{"tag": "y"}"#)));
    assert!(!eval(&f, &json(r#"{"tag": "z"}"#)));
}

#[test]
fn parse_and_binds_before_or() {
    // Split at the first AND: (a = 1) AND (b = 2 OR c = 3).
    match Filter::parse("a = 1 AND b = 2 OR c = 3").unwrap() {
        Filter::And(l, r) => {
            assert_eq!(equals(&l), ("a", "1", true));
            assert!(matches!(*r, Filter::Or(_, _)));
        }
        other => panic!("{:?}", other),
    }
}

#[test]
fn parse_ignores_and_inside_quotes_and_parentheses() {
    let f = Filter::parse(r#"title = "salt AND pepper""#).unwrap();
    assert_eq!(equals(&f), ("title", "salt AND pepper", false));
    match Filter::parse(r#"tag IN ("a AND b", "c") OR x = "y""#).unwrap() {
        Filter::Or(l, r) => {
            assert!(matches!(*l, Filter::In { .. }));
            assert_eq!(equals(&r), ("x", "y", false));
        }
        other => panic!("{:?}", other),
    }
}

#[test]
fn parse_left_error_comes_first() {
    let e = Filter::parse("bad AND x > y").unwrap_err();
    assert_eq!(e, "Unable to parse filter: bad");
}

#[test]
fn parsed_number_equality_matches_json_integers() {
    let f = Filter::parse("year = 2024").unwrap();
    assert!(eval(&f, &json(r#"{"year": 2024}"#)));
    assert!(!eval(&f, &json(r#"{"year": 2023}"#)));
}
