use propparse::parse::{charp, or, stringp, whitespacep, Parser, Value};

#[test]
fn test_charp_pass() {
    let cp1 = charp('c');
    let result = cp1.parse("hello");
    match result {
        (Err(_), s) => assert_eq!(s, "hello"),
        _ => assert!(false),
    }
}

#[test]
fn test_charp_fail1() {
    let cp1 = charp('c');
    let result = cp1.parse("cello");
    assert_eq!(result, (Ok(Value::Char('c')), "ello"));
}

#[test]
fn test_charp_fail_emp() {
    let cp1 = charp('c');
    let result = cp1.parse("");
    match result {
        (Err(_), s) => assert_eq!(s, ""),
        _ => assert!(false),
    }
}

#[test]
fn test_stringp_pass() {
    let sp1 = stringp("hell");
    let result = sp1.parse("hello");
    assert_eq!(result, (Ok(Value::Str(String::from("hell"))), "o"))
}

#[test]
fn test_stringp_fail() {
    let sp1 = stringp("blu");
    let result = sp1.parse("hello");
    match result {
        (Err(_), s) => assert_eq!(s, "hello"),
        _ => assert!(false),
    }
}

#[test]
fn test_whitespacep_pass() {
    let wp1 = whitespacep();
    let result = wp1.parse("\nFFF");
    assert_eq!(result, (Ok(Value::Unit), "FFF"));
}

#[test]
fn test_whitespacep_fail() {
    let wp1 = whitespacep();
    let result = wp1.parse("FFF");
    match result {
        (Err(_), s) => assert_eq!(s, "FFF"),
        _ => assert!(false),
    }
}

#[test]
fn test_seq_pass() {
    let ps = vec![charp('h'), charp('e'), charp('l')];
    let combined = propparse::parse::seq(ps);
    let result = combined.parse("hello");
    assert_eq!(
        result,
        (Ok(Value::List(vec![Value::Char('h'), Value::Char('e'), Value::Char('l')])), "lo")
    );
}

#[test]
fn test_seq_fail() {
    let ps = vec![charp('h'), charp('e'), charp('r')];
    let combined = propparse::parse::seq(ps);
    let result = combined.parse("hello");
    match result {
        (Err(_), rest) => assert_eq!(rest, "hello"),
        _ => assert!(false),
    }
}

#[test]
fn test_or_pass() {
    let ps = vec![charp('.'), charp('h'), charp('l')];
    let best_one = or(ps);
    let result = best_one.parse("hello");
    assert_eq!(result, (Ok(Value::Char('h')), "ello"));
}

#[test]
fn test_or_fail() {
    let ps = vec![charp('.'), charp('b'), charp('l')];
    let best_one = or(ps);
    let result = best_one.parse("hello");
    match result {
        (Err(_), s) => assert_eq!(s, "hello"),
        _ => assert!(false),
    }
}

#[test]
fn test_or_empty() {
    let ps: Vec<Parser> = vec![];
    let best_one = or(ps);
    let result = best_one.parse("hello");
    match result {
        (Err(_), s) => assert_eq!(s, "hello"),
        _ => assert!(false),
    }
}
