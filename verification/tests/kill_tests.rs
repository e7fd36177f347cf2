use portkill::kill::{Signal, check_target};

#[test]
fn refuses_init_and_process_group() {
    assert!(check_target(0, 4242).is_err());
    assert!(check_target(1, 4242).is_err());
}

#[test]
fn signal_names_are_stable() {
    assert_eq!(Signal::Term.to_string(), "SIGTERM");
    assert_eq!(Signal::Kill.to_string(), "SIGKILL");
}

use portkill::kill::{Delivery, SendError, outcome};

#[test]
fn refuses_itself_and_allows_others() {
    let err = check_target(4242, 4242).unwrap_err();
    assert!(err.message().contains("itself"));
    assert!(check_target(2, 4242).is_ok());
    assert!(check_target(4243, 4242).is_ok());
}

#[test]
fn refusals_name_the_pid() {
    assert_eq!(check_target(1, 4242).unwrap_err().message(), "refusing to signal PID 1");
    assert_eq!(check_target(0, 4242).unwrap_err().message(), "refusing to signal PID 0");
}

#[test]
fn delivery_failures_are_reported_by_kind() {
    assert!(outcome(77, Delivery::Delivered).is_ok());
    let gone = outcome(77, Delivery::NoSuchProcess).unwrap_err();
    assert!(gone.message().contains("already gone"));
    assert_eq!(gone.message(), "process 77 is already gone");
    assert_eq!(
        outcome(77, Delivery::NotPermitted).unwrap_err().message(),
        "not permitted to signal process 77 — try with sudo"
    );
    let other = outcome(77, Delivery::Failed("Invalid argument (os error 22)".to_owned())).unwrap_err();
    assert!(matches!(other, SendError::Failed { pid: 77, .. }));
    assert_eq!(other.message(), "failed to signal process 77: Invalid argument (os error 22)");
}

#[test]
fn refuses_pids_that_name_a_group() {
    assert_eq!(
        check_target(u32::MAX, 4242).unwrap_err().message(),
        "refusing to signal PID 4294967295"
    );
    assert!(check_target(1u32 << 31, 4242).is_err());
    assert!(check_target(i32::MAX as u32, 4242).is_ok());
}
