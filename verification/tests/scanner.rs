use cplib::scanner::Scanner;

#[test]
fn read_mixed_types() {
    let mut sc = Scanner::new("42 -1 3.5 hello".to_string());
    assert_eq!(sc.read::<u32>().unwrap(), 42);
    assert_eq!(sc.read::<i64>().unwrap(), -1);
    assert!((sc.read::<f64>().unwrap() - 3.5).abs() < 1e-12);
    assert_eq!(sc.read::<String>().unwrap(), "hello");
}

#[test]
fn skips_any_whitespace() {
    let mut sc = Scanner::new("  1\t2\r\n3\n\n 4 \n".to_string());
    assert_eq!(sc.read_vec::<i32>(4).unwrap(), vec![1, 2, 3, 4]);
    assert_eq!(sc.next_token(), None);
}

#[test]
fn empty_input_yields_nothing() {
    let mut sc = Scanner::new("   \n ".to_string());
    assert_eq!(sc.next_token(), None);
}

#[test]
fn doc_example() {
    let mut sc = Scanner::new("3 1 4 1 5".to_string());
    let n: usize = sc.read().unwrap();
    let a: Vec<i64> = sc.read_vec(n).unwrap();
    assert_eq!(a, vec![1, 4, 1]);
}

#[test]
fn tokens_come_out_in_order() {
    let mut sc = Scanner::new("ab  cd\nef".to_string());
    assert_eq!(sc.next_token(), Some("ab"));
    assert_eq!(sc.next_token(), Some("cd"));
    assert_eq!(sc.next_token(), Some("ef"));
    assert_eq!(sc.next_token(), None);
    assert_eq!(sc.next_token(), None);
}

#[test]
fn non_ascii_tokens_are_kept_whole() {
    let mut sc = Scanner::new("héllo wörld".to_string());
    assert_eq!(sc.next_token(), Some("héllo"));
    assert_eq!(sc.next_token(), Some("wörld"));
}

#[test]
fn refused_token_is_consumed() {
    let mut sc = Scanner::new("x 7".to_string());
    assert!(sc.has_token());
    assert_eq!(sc.read::<u8>(), None);
    assert_eq!(sc.read::<u8>(), Some(7));
    assert!(!sc.has_token());
}

#[test]
fn has_token_looks_past_whitespace_only() {
    let mut sc = Scanner::new(" 1 \n\t ".to_string());
    assert!(sc.has_token());
    assert_eq!(sc.read::<u8>(), Some(1));
    assert!(!sc.has_token());
    assert!(!Scanner::new(String::new()).has_token());
}

#[test]
fn read_vec_stops_just_after_a_refused_token() {
    let mut sc = Scanner::new(String::from("7 x 8 9"));
    assert_eq!(sc.read_vec::<i32>(3), None);
    assert_eq!(sc.next_token(), Some("8"));
}
