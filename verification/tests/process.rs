use init::error::OsError;
use init::process::Process;

#[test]
fn a_fresh_handle_has_no_status() {
    let p = Process::new(7);
    assert_eq!(p.id(), 7);
    assert_eq!(p.status(), None);
}

#[test]
fn the_first_status_is_kept() {
    let mut p = Process::new(7);
    assert_eq!(p.record(Ok(3)), Ok(3));
    assert_eq!(p.status(), Some(3));
    assert_eq!(p.record(Ok(4)), Ok(3));
    assert_eq!(p.record(Err(OsError { errno: 10 })), Ok(3));
    assert_eq!(p.status(), Some(3));
}

#[test]
fn wait_returns_a_known_status_without_asking_again() {
    let mut p = Process::new(7);
    p.record(Ok(0)).unwrap();
    assert_eq!(p.wait(), Ok(0));
    assert_eq!(p.wait(), Ok(0));
    assert_eq!(p.status(), Some(0));
}

#[test]
fn a_failed_wait_leaves_no_status() {
    let mut p = Process::new(7);
    assert_eq!(p.record(Err(OsError { errno: 10 })), Err(OsError { errno: 10 }));
    assert_eq!(p.status(), None);
    assert_eq!(p.record(Ok(5)), Ok(5));
    assert_eq!(p.status(), Some(5));
}
