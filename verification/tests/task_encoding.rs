use polyfoni::protocol::parse_response;
use polyfoni::task::{Number, Task, TaskError};

fn number(text: &str) -> Number {
    match Number::parse(text) {
        Some(n) => n,
        None => panic!("not a number: {}", text),
    }
}

#[test]
fn numbers_are_read() {
    for text in [
        "0", "2", "-1", "10", "3.25", "-0.5", "1e9", "1E9", "2.5e-3", "6.02E+23", "-0", "0.0",
        "1234567890",
    ] {
        let n = number(text);
        assert_eq!(n.bytes(), &text.as_bytes().to_vec());
    }
}

#[test]
fn texts_that_are_no_numbers_are_turned_away() {
    for text in [
        "", "-", "+1", "01", "-01", "1.", ".5", "1e", "1e+", "1.e5", "1 ", " 1", "1,2", "0x10",
        "NaN", "inf", "1e5.5", "--1", "1\n", "2,\"y\":3", "١",
    ] {
        assert!(Number::parse(text).is_none(), "{:?} was read as a number", text);
    }
}

#[test]
fn x_plus_one_encodes_as_one_json_object() {
    let mut task = Task::new("x + 1".to_string());
    assert_eq!(task.bind("x".to_string(), number("2")), Ok(()));
    assert_eq!(task.encode(), b"{\"expr\":\"x + 1\",\"vars\":{\"x\":2}}".to_vec());
    assert_eq!(
        task.to_request().bytes(),
        &b"{\"expr\":\"x + 1\",\"vars\":{\"x\":2}}\n".to_vec()
    );
}

#[test]
fn x_plus_one_round_trips_through_the_line_protocol() {
    let mut task = Task::new("x + 1".to_string());
    assert_eq!(task.bind("x".to_string(), number("2")), Ok(()));
    let request = task.to_request();
    let line = request.bytes();
    assert_eq!(line.iter().filter(|b| **b == b'\n').count(), 1);
    assert_eq!(line.last(), Some(&b'\n'));
    assert_eq!(parse_response(b"3\n".to_vec()), Ok("3".to_string()));
}

#[test]
fn a_task_without_variables_has_an_empty_object() {
    let task = Task::new("1 + 1".to_string());
    assert_eq!(task.encode(), b"{\"expr\":\"1 + 1\",\"vars\":{}}".to_vec());
}

#[test]
fn bindings_stand_by_ascending_name() {
    let mut task = Task::new("a*b+c".to_string());
    assert_eq!(task.bind("b".to_string(), number("-2.5")), Ok(()));
    assert_eq!(task.bind("a".to_string(), number("1e3")), Ok(()));
    assert_eq!(task.bind("c".to_string(), number("0")), Ok(()));
    assert_eq!(
        task.encode(),
        b"{\"expr\":\"a*b+c\",\"vars\":{\"a\":1e3,\"b\":-2.5,\"c\":0}}".to_vec()
    );
    assert!(task.is_canonical());
}

#[test]
fn names_are_ordered_byte_by_byte() {
    let mut task = Task::new("x".to_string());
    for name in ["b", "ab", "", "a", "B", "é", "aa", "abc", "z"] {
        assert_eq!(task.bind(name.to_string(), number("1")), Ok(()));
    }
    let expected = "{\"expr\":\"x\",\"vars\":{\"\":1,\"B\":1,\"a\":1,\"aa\":1,\"ab\":1,\"abc\":1,\"b\":1,\"z\":1,\"é\":1}}";
    assert_eq!(String::from_utf8(task.encode()), Ok(expected.to_string()));
}

#[test]
fn the_same_bindings_give_the_same_line_in_any_order() {
    let pairs = [("x", "2"), ("alpha", "-1"), ("y", "3.5"), ("beta", "1e2")];
    let mut forward = Task::new("x + y".to_string());
    for (name, value) in pairs.iter() {
        assert_eq!(forward.bind(name.to_string(), number(value)), Ok(()));
    }
    let mut backward = Task::new("x + y".to_string());
    for (name, value) in pairs.iter().rev() {
        assert_eq!(backward.bind(name.to_string(), number(value)), Ok(()));
    }
    let mut shuffled = Task::new("x + y".to_string());
    for at in [2usize, 0, 3, 1] {
        let (name, value) = pairs[at];
        assert_eq!(shuffled.bind(name.to_string(), number(value)), Ok(()));
    }
    assert_eq!(forward.encode(), backward.encode());
    assert_eq!(forward.encode(), shuffled.encode());
    assert_eq!(
        forward.encode(),
        b"{\"expr\":\"x + y\",\"vars\":{\"alpha\":-1,\"beta\":1e2,\"x\":2,\"y\":3.5}}".to_vec()
    );
}

#[test]
fn delimiters_in_the_expression_are_escaped() {
    let mut task = Task::new("f(\"a\", {x: 1}) \\ 2".to_string());
    assert_eq!(task.bind("quo\"te".to_string(), number("1")), Ok(()));
    assert_eq!(
        task.encode(),
        b"{\"expr\":\"f(\\\"a\\\", {x: 1}) \\\\ 2\",\"vars\":{\"quo\\\"te\":1}}".to_vec()
    );
}

#[test]
fn control_characters_are_escaped() {
    let task = Task::new("a\nb\tc\u{0}d\u{1f}e\u{7f}".to_string());
    assert_eq!(
        task.encode(),
        b"{\"expr\":\"a\\u000ab\\u0009c\\u0000d\\u001fe\x7f\",\"vars\":{}}".to_vec()
    );
    let request = task.to_request();
    assert_eq!(request.bytes().iter().filter(|b| **b == b'\n').count(), 1);
}

#[test]
fn text_beyond_ascii_is_kept() {
    let mut task = Task::new("α + 1".to_string());
    assert_eq!(task.bind("α".to_string(), number("2")), Ok(()));
    let expected = "{\"expr\":\"α + 1\",\"vars\":{\"α\":2}}";
    assert_eq!(task.encode(), expected.as_bytes().to_vec());
    assert!(String::from_utf8(task.encode()).is_ok());
}

#[test]
fn a_name_is_bound_once() {
    let mut task = Task::new("x".to_string());
    assert!(!task.has_variable("x"));
    assert_eq!(task.bind("x".to_string(), number("1")), Ok(()));
    assert!(task.has_variable("x"));
    assert!(!task.has_variable("y"));
    assert_eq!(task.bind("w".to_string(), number("0")), Ok(()));
    assert_eq!(task.bind("y".to_string(), number("0")), Ok(()));
    assert_eq!(task.bind("x".to_string(), number("2")), Err(TaskError::DuplicateVariable));
    assert_eq!(task.bind("w".to_string(), number("2")), Err(TaskError::DuplicateVariable));
    assert_eq!(task.bind("y".to_string(), number("2")), Err(TaskError::DuplicateVariable));
    let mut task = Task::new("x".to_string());
    assert_eq!(task.bind("x".to_string(), number("1")), Ok(()));
    assert_eq!(task.bind("x".to_string(), number("2")), Err(TaskError::DuplicateVariable));
    assert_eq!(task.encode(), b"{\"expr\":\"x\",\"vars\":{\"x\":1}}".to_vec());
}

#[test]
fn different_tasks_have_different_lines() {
    let mut one = Task::new("a".to_string());
    assert_eq!(one.bind("b\":1,\"c".to_string(), number("2")), Ok(()));
    let mut two = Task::new("a".to_string());
    assert_eq!(two.bind("b".to_string(), number("1")), Ok(()));
    assert_eq!(two.bind("c".to_string(), number("2")), Ok(()));
    assert_ne!(one.encode(), two.encode());
    let three = Task::new("a\",\"vars\":{\"x\":1}}".to_string());
    let mut four = Task::new("a".to_string());
    assert_eq!(four.bind("x".to_string(), number("1")), Ok(()));
    assert_ne!(three.encode(), four.encode());
}
