use hotpath_service::limits::rate_limit_ack;

#[test]
fn rate_limit_always_approves_and_spends_one_unit() {
    let ack = rate_limit_ack(5);
    assert!(ack.success);
    assert_eq!(ack.limit, 5);
    assert_eq!(ack.remaining, 4);
}

#[test]
fn rate_limit_of_zero_does_not_wrap() {
    let ack = rate_limit_ack(0);
    assert!(ack.success);
    assert_eq!(ack.limit, 0);
    assert_eq!(ack.remaining, 0);
}
