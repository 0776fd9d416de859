use anysocket::Attempts;
use anysocket::IpAddress;
use anysocket::SocketAddr;
use anysocket::SplitState;

#[test]
fn first_success_wins_and_later_candidates_are_ignored() {
    let outcomes: Vec<Result<&str, i32>> = vec![Err(1), Err(2), Ok("good"), Err(3)];
    assert_eq!(anysocket::select_first_success(outcomes), Ok("good"));
}

#[test]
fn all_failures_report_the_last_error() {
    let outcomes: Vec<Result<&str, i32>> = vec![Err(1), Err(2)];
    assert_eq!(anysocket::select_first_success(outcomes), Err(2));
}

#[test]
fn single_success() {
    let outcomes: Vec<Result<u8, i32>> = vec![Ok(9)];
    assert_eq!(anysocket::select_first_success(outcomes), Ok(9));
}

#[test]
fn attempts_walk_candidates_in_order() {
    let a = SocketAddr::tcp(IpAddress::V4(1, 1, 1, 1), 1);
    let b = SocketAddr::tcp(IpAddress::V4(2, 2, 2, 2), 2);
    let mut at: Attempts<i32> = Attempts::new(vec![a.clone(), b.clone()]);
    assert_eq!(at.next_candidate(), Some(a));
    at.record_failure(41);
    assert_eq!(at.next_candidate(), Some(b));
    at.record_failure(42);
    assert_eq!(at.next_candidate(), None);
    assert_eq!(at.into_last_error(), 42);
}

#[test]
fn owned_split_shared_closing() {
    let mut s = SplitState::split();
    assert!(!s.is_closed());
    s.drop_write();
    assert!(!s.is_closed());
    assert!(s.shutdown_sent);
    s.drop_read();
    assert!(s.is_closed());
}

#[test]
fn forget_leaves_closing_to_the_read_half() {
    let mut s = SplitState::split();
    s.forget_write();
    assert!(!s.shutdown_sent);
    assert!(!s.is_closed());
    s.drop_read();
    assert!(s.is_closed());
    assert!(!s.shutdown_sent);
}

#[test]
fn read_half_alone_does_not_close() {
    let mut s = SplitState::split();
    s.drop_read();
    assert!(!s.is_closed());
    s.drop_write();
    assert!(s.is_closed());
}
