use replicated_queue::ingress::parse_message;

fn parse(s: &str) -> Option<(i32, i32, i32, i32, i32)> {
    parse_message(&s.as_bytes().to_vec()).map(|m| (m.message, m.value, m.invoker, m.sender, m.receiver))
}

#[test]
fn parses_a_plain_record() {
    let m = parse_message(&b"process:1,op:0,value:69".to_vec()).unwrap();
    assert_eq!(m.message, 0);
    assert_eq!(m.value, 69);
    assert_eq!(m.invoker, 1);
    assert_eq!(m.sender, 1);
    assert_eq!(m.receiver, 1);
    assert_eq!(m.time_stamp.size, 0);
    assert!(m.time_stamp.clock.iter().all(|&x| x == 0));
}

#[test]
fn parses_a_dequeue_record() {
    assert_eq!(parse("process:2,op:3,value:0"), Some((3, 0, 2, 2, 2)));
}

#[test]
fn fields_may_come_in_any_order() {
    assert_eq!(parse("value:7,process:0,op:0"), Some((0, 7, 0, 0, 0)));
}

#[test]
fn values_tolerate_surrounding_whitespace() {
    assert_eq!(parse("process: 1 ,op: 0,value: 42 \n"), Some((0, 42, 1, 1, 1)));
}

#[test]
fn negative_values_parse() {
    assert_eq!(parse("process:0,op:0,value:-5"), Some((0, -5, 0, 0, 0)));
}

#[test]
fn missing_field_is_rejected() {
    assert_eq!(parse("process:1,op:0"), None);
    assert_eq!(parse(""), None);
}

#[test]
fn malformed_number_is_rejected() {
    assert_eq!(parse("process:1,op:0,value:abc"), None);
    assert_eq!(parse("process:1,op:0,value:"), None);
}

#[test]
fn overflowing_number_is_rejected() {
    assert_eq!(parse("process:1,op:0,value:2147483648"), None);
    assert_eq!(parse("process:1,op:0,value:2147483647"), Some((0, 2147483647, 1, 1, 1)));
    assert_eq!(parse("process:1,op:0,value:-2147483648"), Some((0, -2147483648, 1, 1, 1)));
    assert_eq!(parse("process:1,op:0,value:-2147483649"), None);
}

#[test]
fn later_fields_overwrite_earlier_ones() {
    assert_eq!(parse("process:1,process:2,op:0,value:5"), Some((0, 5, 2, 2, 2)));
}
