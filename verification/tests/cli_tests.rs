use portkill::cli::{
    EXIT_CANCELLED, EXIT_KILL_FAILED, EXIT_NOT_FOUND, Plan, confirm_prompt, exit_code, is_yes,
    not_found_message, plan, sent_message, table_lines,
};
use portkill::kill::Signal;
use portkill::ports::{PortEntry, Proto};

fn entry(port: u16, pid: u32, name: &str, user: &str, memory: u64) -> PortEntry {
    PortEntry { port, proto: Proto::Tcp, pid, name: name.to_owned(), user: user.to_owned(), memory }
}

#[test]
fn flags_pick_the_signal_and_the_prompt() {
    assert_eq!(plan(0, true, true), Plan::NothingThere);
    assert_eq!(plan(1, false, false), Plan::Ask(Signal::Term));
    assert_eq!(plan(1, false, true), Plan::Send(Signal::Term));
    assert_eq!(plan(2, true, false), Plan::Send(Signal::Kill));
    assert_eq!(plan(2, true, true), Plan::Send(Signal::Kill));
}

#[test]
fn exit_codes_are_distinct() {
    assert_eq!(exit_code(false), 0);
    assert_eq!(exit_code(true), EXIT_KILL_FAILED);
    assert_eq!((EXIT_NOT_FOUND, EXIT_CANCELLED, EXIT_KILL_FAILED), (1, 2, 3));
}

#[test]
fn only_yes_means_yes() {
    for yes in ["y", "Y", "yes", "Yes", " yes\n", "y\r\n", "\u{3000}Y\t"] {
        assert!(is_yes(yes), "{yes:?}");
    }
    for no in ["", "\n", "n", "no", "YES", "yess", "ye", "y y", "sí"] {
        assert!(!is_yes(no), "{no:?}");
    }
}

#[test]
fn messages_read_as_before() {
    assert_eq!(not_found_message(8080), "Nothing is listening on port 8080.");
    let e = entry(8080, 39865, "node", "cyrus", 42 * 1024 * 1024);
    assert_eq!(sent_message(Signal::Term, &e), "Sent SIGTERM to node (PID 39865).");
    assert_eq!(confirm_prompt(&vec![e], Signal::Term), "\nSend SIGTERM to node (PID 39865)? [y/N] ");
    let two = vec![entry(80, 1, "a", "b", 0), entry(80, 2, "c", "d", 0)];
    assert_eq!(confirm_prompt(&two, Signal::Kill), "\nSend SIGKILL to 2 processes? [y/N] ");
}

#[test]
fn table_columns_fit_their_contents() {
    let entries = vec![entry(8080, 39865, "node", "cyrus", 42 * 1024 * 1024)];
    assert_eq!(
        table_lines(&entries),
        vec![
            "PORT   PROTO PID     PROCESS USER  MEMORY".to_owned(),
            "8080   TCP   39865   node    cyrus 42 M".to_owned(),
        ]
    );
    let wide = vec![
        entry(3000, 1, "a-rather-long-name", "u", 512),
        entry(3001, 22, "ü", "administrator", 0),
    ];
    let lines = table_lines(&wide);
    assert_eq!(lines[0], "PORT   PROTO PID     PROCESS            USER          MEMORY");
    assert_eq!(lines[1], "3000   TCP   1       a-rather-long-name u             512 B");
    assert_eq!(lines[2], "3001   TCP   22      ü                  administrator 0 B");
}
