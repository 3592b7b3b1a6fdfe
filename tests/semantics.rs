use minipyth::Object::{self, Error, Int, List};
use minipyth::{lex, parse, Integer};

fn run_prog(program: &str, input: Object) -> Object {
    let tokens = lex(program).unwrap();
    let func = parse(tokens).unwrap();
    func.execute(input)
}

fn run_text(program: &str, input: &str) -> String {
    run_prog(program, Object::from_str(input).unwrap()).to_text()
}

fn int_to_obj(int: i64) -> Object {
    Int(Integer::from_i64(int))
}

fn list_int_to_obj(ints: Vec<i64>) -> Object {
    List(ints.into_iter().map(int_to_obj).collect())
}

fn error_text(output: Object) -> String {
    match output {
        Error(reason) => reason,
        other => panic!("expected an error, got {:?}", other),
    }
}

#[test]
fn map_keeps_length_without_errors() {
    let output = run_prog("mh", int_to_obj(5));
    assert_eq!(list_int_to_obj(vec![1, 2, 3, 4, 5]), output);
    let output = run_prog("ml", list_int_to_obj(vec![3, 0, 8]));
    match output {
        List(items) => assert_eq!(3, items.len()),
        other => panic!("{:?}", other),
    }
}

#[test]
fn map_reports_first_error() {
    let output = run_prog("mh", List(vec![list_int_to_obj(vec![]), list_int_to_obj(vec![4])]));
    assert_eq!("Head of empty list", error_text(output));
}

#[test]
fn double_inverse_is_the_primitive() {
    for (program, single) in [("iih", "h"), ("iit", "t"), ("iip", "p"), ("iil", "l"), ("iin", "n")] {
        for input in ["12", "[3, 1, 2]", "-5"] {
            assert_eq!(run_text(single, input), run_text(program, input), "{} on {}", program, input);
        }
    }
}

#[test]
fn order_twice_is_order_once() {
    let input = "[5, [1], -3, [0, 2], 7, -3]";
    let once = run_text("on", input);
    let twice = run_text("onzon", input);
    assert_eq!(once, twice);
    assert_eq!("[7, 5, -3, -3, [1], [0, 2]]", once);
}

#[test]
fn order_is_stable() {
    assert_eq!("[[2, 0], [3, 0], [1, 1], [0, 5]]", run_text("ot", "[[1, 1], [2, 0], [0, 5], [3, 0]]"));
}

#[test]
fn length_round_trip() {
    for n in [0i64, 1, 2, 13, 1024, 999999] {
        assert_eq!(int_to_obj(n), run_prog("ilzl", int_to_obj(n)));
    }
}

#[test]
fn head_tail_on_integer() {
    for n in [-4i64, 0, 7] {
        assert_eq!(int_to_obj(n), run_prog("ht", int_to_obj(n)));
        assert_eq!(int_to_obj(n), run_prog("th", int_to_obj(n)));
    }
}

#[test]
fn big_integer_arithmetic() {
    assert_eq!("100000000000000000000", run_text("h", "99999999999999999999"));
    assert_eq!("-100000000000000000001", run_text("t", "-100000000000000000000"));
    assert_eq!("1180591620717411303424", run_text("y", "70"));
    assert_eq!("121932631137021795223746380111126352690", run_text("p", "[12345678901234567890, 9876543210987654321]"));
    assert_eq!("[1, 0, 0, 0, 0, 0, 0, 0, 0, 0, 0, 0, 0, 0, 0, 0, 0, 0, 0, 0, 0, 0, 0, 0, 0, 0, 0, 0, 0, 0, 0, 0, 0, 0, 0, 0, 0, 0, 0, 0, 0, 0, 0, 0, 0, 0, 0, 0, 0, 0, 0, 0, 0, 0, 0, 0, 0, 0, 0, 0, 0, 0, 0, 0, 0]", run_text("l", "18446744073709551616"));
    assert_eq!("[-12345678901234567890, 12345678901234567890]", run_text("oz", "[12345678901234567890, -12345678901234567890]"));
}

#[test]
fn truncated_division() {
    assert_eq!("[-3, -1]", run_text("ip", "[-7, 2]"));
    assert_eq!("[3, 1]", run_text("ip", "[7, 2]"));
    assert_eq!("[-3, 1]", run_text("ip", "[7, -2]"));
}

#[test]
fn primitive_values() {
    assert_eq!("[2, 2, 2, 3, 3, 5]", run_text("p", "360"));
    assert_eq!("[2, 2, 2, 3, 3, 5]", run_text("p", "-360"));
    assert_eq!("[]", run_text("p", "1"));
    assert_eq!("[[], [1], [2], [1, 2]]", run_text("y", "[1, 2]"));
    assert_eq!("[1, 0, 1, 0]", run_text("l", "10"));
    assert_eq!("10", run_text("il", "[1, 0, 1, 0]"));
    assert_eq!("6", run_text("s", "[1, 2, 3]"));
    assert_eq!("0", run_text("s", "[]"));
    assert_eq!("1", run_text("s", "0"));
    assert_eq!("[1, 2, 3, 4]", run_text("s", "[[1, 2], 3, [4]]"));
    assert_eq!("24", run_text("p", "[2, 3, 4]"));
    assert_eq!("[3, 2, 1]", run_text("n", "[1, 2, 3]"));
    assert_eq!("-3", run_text("n", "3"));
    assert_eq!("1", run_text("e", "[4, 4, 4]"));
    assert_eq!("0", run_text("e", "[4, 5, 4]"));
    assert_eq!("[[1, 3], [2]]", run_text("c", "[[1, 2], [3]]"));
    assert_eq!("1", run_text("ip", "97"));
    assert_eq!("0", run_text("ip", "91"));
}

#[test]
fn error_values() {
    assert_eq!("Head of empty list", error_text(run_prog("h", list_int_to_obj(vec![]))));
    assert_eq!("Tail of empty list", error_text(run_prog("t", list_int_to_obj(vec![]))));
    assert_eq!("Negative exponent in power set", error_text(run_prog("y", int_to_obj(-1))));
    assert_eq!("Divide by zero", error_text(run_prog("ip", list_int_to_obj(vec![5, 0]))));
    assert_eq!("End (inverse head) of empty list", error_text(run_prog("ih", list_int_to_obj(vec![]))));
    assert_eq!("Inverse tail of empty list", error_text(run_prog("it", list_int_to_obj(vec![]))));
    assert_eq!("Equal of an integer", error_text(run_prog("e", int_to_obj(3))));
    assert_eq!("Combine of an integer", error_text(run_prog("c", int_to_obj(3))));
    assert_eq!("Inverse product needs two integers", error_text(run_prog("ip", list_int_to_obj(vec![1, 2, 3]))));
    assert_eq!("No inverse of this primitive on a list", error_text(run_prog("in", list_int_to_obj(vec![1]))));
    assert_eq!("No inverse of this primitive on an integer", error_text(run_prog("in", int_to_obj(1))));
}

#[test]
fn errors_pass_through() {
    let e = run_prog("t", list_int_to_obj(vec![]));
    let output = run_prog("hh", e);
    assert_eq!("Tail of empty list", error_text(output));
}

#[test]
fn lex_and_parse_failures() {
    assert!(lex("hg").is_none());
    assert!(lex("H").is_none());
    let tokens = lex("z").unwrap();
    assert!(parse(tokens).is_none());
    let tokens = lex("q").unwrap();
    assert!(parse(tokens).is_none());
}

#[test]
fn text_forms() {
    assert_eq!("Error: Tail of empty list", run_prog("t", list_int_to_obj(vec![])).to_text());
    assert_eq!(int_to_obj(7), Object::from_str("007").unwrap());
    assert_eq!(List(vec![]), Object::from_str("").unwrap());
    assert_eq!(List(vec![]), Object::from_str("[]").unwrap());
    assert!(Object::from_str("[1,2]").is_none());
    assert!(Object::from_str("[1, 2").is_none());
    assert!(Object::from_str("-").is_none());
    assert!(Object::from_str("12a").is_none());
    let text = "[[], [-5, [0]], 123456789012345678901234567890]";
    assert_eq!(text, Object::from_str(text).unwrap().to_text());
}

#[test]
fn size_limits() {
    let big = List((0..64).map(int_to_obj).collect());
    assert_eq!("Power set too large", error_text(run_prog("y", big)));
    let fits = List((0..10).map(int_to_obj).collect());
    match run_prog("y", fits) {
        List(subsets) => assert_eq!(1024, subsets.len()),
        other => panic!("{:?}", other),
    }
    assert_eq!("Exponent too large in power set", error_text(run_prog("y", Object::from_str("4294967296").unwrap())));
}

#[test]
fn empty_lists() {
    assert_eq!("[]", run_text("c", "[]"));
    assert_eq!("1", run_text("e", "[]"));
    assert_eq!("[[]]", run_text("y", "[]"));
    assert_eq!("[]", run_text("p", "[[]]"));
    assert_eq!("1", run_text("p", "[]"));
    assert_eq!("[]", run_text("mh", "[]"));
    assert_eq!("0", run_text("l", "[]"));
}
