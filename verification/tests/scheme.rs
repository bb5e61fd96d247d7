use init::path::scheme;
use init::process::{Fork, Process};
use init::scheme::{DemonScheme, SchemeError};
use init::text::same;

#[test]
fn a_registered_name_opens_once() {
    let mut provider = DemonScheme::new(vec!["log".to_string(), "net".to_string()]);
    assert_eq!(provider.open("net", 0, 0, 0), Ok(0));
    assert_eq!(provider.open("net", 0, 0, 0), Err(SchemeError::Busy));
    assert_eq!(provider.open("log", 0, 0, 0), Ok(1));
    assert_eq!(provider.open("log", 7, 1000, 1000), Err(SchemeError::Busy));
}

#[test]
fn an_unregistered_name_is_busy() {
    let mut provider = DemonScheme::new(vec!["log".to_string()]);
    assert_eq!(provider.open("nowhere", 0, 0, 0), Err(SchemeError::Busy));
    assert_eq!(provider.open("", 0, 0, 0), Err(SchemeError::Busy));
    // The refusal has not used up an identifier.
    assert_eq!(provider.open("log", 0, 0, 0), Ok(0));
    let mut empty = DemonScheme::new(vec![]);
    assert_eq!(empty.open("log", 0, 0, 0), Err(SchemeError::Busy));
}

#[test]
fn a_name_that_is_registered_twice_is_one_name() {
    let mut provider = DemonScheme::new(vec!["log".to_string(), "log".to_string()]);
    assert_eq!(provider.open("log", 0, 0, 0), Ok(0));
    assert_eq!(provider.open("log", 0, 0, 0), Err(SchemeError::Busy));
}

#[test]
fn no_connection_carries_data() {
    let mut provider = DemonScheme::new(vec!["log".to_string()]);
    let id = provider.open("log", 0, 0, 0).unwrap();
    let mut buf = [1u8, 2, 3];
    assert_eq!(provider.read(id, &mut buf), Err(SchemeError::BadDescriptor));
    assert_eq!(buf, [1, 2, 3]);
    assert_eq!(provider.write(id, &buf), Err(SchemeError::BadDescriptor));
    assert_eq!(provider.close(id), Err(SchemeError::BadDescriptor));
    assert_eq!(provider.read(99, &mut buf), Err(SchemeError::BadDescriptor));
    assert_eq!(provider.write(99, &[]), Err(SchemeError::BadDescriptor));
    assert_eq!(provider.close(99), Err(SchemeError::BadDescriptor));
    // Closing has failed, so the connection is still open.
    assert_eq!(provider.open("log", 0, 0, 0), Err(SchemeError::Busy));
}

#[test]
fn the_scheme_of_a_path_ends_with_its_first_colon() {
    assert_eq!(scheme("file:/etc/init.d"), Some("file:".to_string()));
    assert_eq!(scheme("initfs:/etc/init.rc"), Some("initfs:".to_string()));
    assert_eq!(scheme("a:b:c"), Some("a:".to_string()));
    assert_eq!(scheme(":"), Some(":".to_string()));
    assert_eq!(scheme("display:"), Some("display:".to_string()));
    assert_eq!(scheme("größe:x"), Some("größe:".to_string()));
}

#[test]
fn a_path_without_colon_has_no_scheme() {
    assert_eq!(scheme("/etc/init.d"), None);
    assert_eq!(scheme(""), None);
}

#[test]
fn same_compares_by_content() {
    assert!(same("", ""));
    assert!(same("abc", "abc"));
    assert!(!same("abc", "abd"));
    assert!(!same("abc", "ab"));
    assert!(!same("", "a"));
    assert!(same("größe", "größe"));
}

#[test]
fn a_duplication_returns_zero_in_the_duplicate() {
    assert!(matches!(Fork::from_clone(0), Fork::Child));
    match Fork::from_clone(42) {
        Fork::Parent(process) => {
            assert_eq!(process.id(), 42);
            assert_eq!(process.status(), None);
        }
        Fork::Child => panic!("42 is the identifier of a duplicate"),
    }
}

#[test]
fn a_wait_on_the_host_fails_and_can_be_repeated() {
    // The host of the tests has no such system call: the wait fails, no
    // status is kept, and a later answer is still taken.
    let mut process = Process::new(1);
    let first = process.wait();
    assert!(first.is_err());
    assert_eq!(process.status(), None);
    assert_eq!(process.record(Ok(0)), Ok(0));
    assert_eq!(process.wait(), Ok(0));
}
