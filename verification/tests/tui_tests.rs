use netstat2::{AddressFamilyFlags, ProtocolFlags, ProtocolSocketInfo};
use portkill::kill::check_target;
use portkill::ports::{Lookup, PortEntry, Proto, Socket, SocketKind, TcpState, scan};
use portkill::tui::{Action, App, Key, KeyCode, KeyKind, Status};

/// A process id that is never one of the test's targets.
const OWN_PID: u32 = u32::MAX;

fn tcp_state(state: netstat2::TcpState) -> TcpState {
    match state {
        netstat2::TcpState::Closed => TcpState::Closed,
        netstat2::TcpState::Listen => TcpState::Listen,
        netstat2::TcpState::SynSent => TcpState::SynSent,
        netstat2::TcpState::SynReceived => TcpState::SynReceived,
        netstat2::TcpState::Established => TcpState::Established,
        netstat2::TcpState::FinWait1 => TcpState::FinWait1,
        netstat2::TcpState::FinWait2 => TcpState::FinWait2,
        netstat2::TcpState::CloseWait => TcpState::CloseWait,
        netstat2::TcpState::Closing => TcpState::Closing,
        netstat2::TcpState::LastAck => TcpState::LastAck,
        netstat2::TcpState::TimeWait => TcpState::TimeWait,
        netstat2::TcpState::DeleteTcb => TcpState::DeleteTcb,
        netstat2::TcpState::Unknown => TcpState::Unknown,
    }
}

/// A rescan of the machine's socket table.
fn rescan() -> Vec<PortEntry> {
    let sockets: Vec<Socket> = netstat2::get_sockets_info(
        AddressFamilyFlags::IPV4 | AddressFamilyFlags::IPV6,
        ProtocolFlags::TCP | ProtocolFlags::UDP,
    )
    .unwrap()
    .into_iter()
    .map(|s| Socket {
        kind: match &s.protocol_socket_info {
            ProtocolSocketInfo::Tcp(tcp) => SocketKind::Tcp(tcp_state(tcp.state)),
            ProtocolSocketInfo::Udp(_) => SocketKind::Udp,
        },
        port: s.local_port(),
        pids: s.associated_pids,
    })
    .collect();
    let no_lookups: Vec<Lookup> = Vec::new();
    scan(&sockets, &no_lookups)
}

/// Carries out what the browser asks for, as the program does.
fn perform(app: &mut App, action: Action) {
    match action {
        Action::Nothing => {}
        Action::Refresh => {
            app.refresh(Ok(rescan()));
        }
        Action::Signal(request) => {
            let result = match check_target(request.pid, OWN_PID) {
                Ok(()) => panic!("the tests only ever target guarded processes"),
                Err(err) => Err(err),
            };
            let next = app.signal_sent(&request, result);
            perform(app, next);
        }
    }
}

fn handle(app: &mut App, key: Key) {
    let action = app.handle_key(key);
    perform(app, action);
}

fn entry(port: u16, pid: u32, name: &str) -> PortEntry {
    PortEntry {
        port,
        proto: Proto::Tcp,
        pid,
        name: name.to_owned(),
        user: "cyrus".to_owned(),
        memory: 1024,
    }
}

fn app() -> App {
    App::new(vec![
        entry(3000, 100, "node"),
        entry(5432, 200, "postgres"),
        entry(8080, 300, "python"),
    ])
}

fn press(app: &mut App, code: KeyCode) {
    handle(app, Key::new(code, false));
}

fn type_query(app: &mut App, text: &str) {
    for c in text.chars() {
        press(app, KeyCode::Char(c));
    }
}

#[test]
fn starts_with_everything_visible() {
    let app = app();
    assert_eq!(app.visible_count(), 3);
    assert_eq!(app.selected(), Some(0));
    assert_eq!(app.selected_entry().unwrap().port, 3000);
}

#[test]
fn j_and_k_navigate_without_running_off_the_ends() {
    let mut app = app();
    press(&mut app, KeyCode::Char('k'));
    assert_eq!(app.selected(), Some(0), "already at the top");

    press(&mut app, KeyCode::Char('j'));
    press(&mut app, KeyCode::Char('j'));
    press(&mut app, KeyCode::Char('j'));
    assert_eq!(app.selected(), Some(2), "clamped at the bottom");

    press(&mut app, KeyCode::Char('k'));
    assert_eq!(app.selected(), Some(1));
}

#[test]
fn g_jumps_to_the_ends() {
    let mut app = app();
    press(&mut app, KeyCode::Char('G'));
    assert_eq!(app.selected(), Some(2));
    press(&mut app, KeyCode::Char('g'));
    assert_eq!(app.selected(), Some(0));
}

#[test]
fn slash_enters_search_and_filters_by_name() {
    let mut app = app();
    press(&mut app, KeyCode::Char('/'));
    assert!(app.searching());

    type_query(&mut app, "post");
    // Fuzzy matching is a subsequence match, so loose hits can survive;
    // what matters is that the obvious one is ranked first and selected.
    assert!(app.visible_count() < 3, "the filter should narrow the list");
    assert_eq!(app.selected_entry().unwrap().name, "postgres");
    assert_eq!(app.visible().into_iter().next().unwrap().name, "postgres");
    assert_eq!(app.total_count(), 3, "filtering must not drop the data");
}

#[test]
fn search_matches_port_numbers_too() {
    let mut app = app();
    press(&mut app, KeyCode::Char('/'));
    type_query(&mut app, "8080");
    assert_eq!(app.visible_count(), 1);
    assert_eq!(app.selected_entry().unwrap().port, 8080);
}

#[test]
fn backspace_widens_the_filter_again() {
    let mut app = app();
    press(&mut app, KeyCode::Char('/'));
    type_query(&mut app, "post");
    press(&mut app, KeyCode::Backspace);
    press(&mut app, KeyCode::Backspace);
    press(&mut app, KeyCode::Backspace);
    press(&mut app, KeyCode::Backspace);
    assert_eq!(app.query(), "");
    assert_eq!(app.visible_count(), 3);
}

#[test]
fn in_search_mode_letters_type_rather_than_navigate() {
    let mut app = app();
    press(&mut app, KeyCode::Char('/'));
    type_query(&mut app, "j");
    assert_eq!(app.query(), "j", "`j` is a character here, not a move");
}

#[test]
fn enter_keeps_the_filter_but_esc_clears_it() {
    let mut app = app();
    press(&mut app, KeyCode::Char('/'));
    type_query(&mut app, "node");
    press(&mut app, KeyCode::Enter);
    assert!(!app.searching());
    assert_eq!(app.query(), "node");
    assert_eq!(app.visible_count(), 1);

    press(&mut app, KeyCode::Char('/'));
    press(&mut app, KeyCode::Esc);
    assert!(!app.searching());
    assert_eq!(app.query(), "");
    assert_eq!(app.visible_count(), 3);
}

#[test]
fn selection_follows_the_process_across_a_filter_change() {
    let mut app = app();
    press(&mut app, KeyCode::Char('j'));
    let before = app.selected_entry().unwrap().pid;

    press(&mut app, KeyCode::Char('/'));
    type_query(&mut app, "s");
    assert_eq!(
        app.selected_entry().unwrap().pid,
        before,
        "the highlighted process should not change out from under the user"
    );
}

#[test]
fn selection_stays_in_bounds_when_the_filter_empties() {
    let mut app = app();
    press(&mut app, KeyCode::Char('G'));
    press(&mut app, KeyCode::Char('/'));
    type_query(&mut app, "zzzz");

    assert_eq!(app.visible_count(), 0);
    assert_eq!(app.selected(), None);
    assert!(app.selected_entry().is_none());
    // Navigating an empty list must not panic.
    press(&mut app, KeyCode::Down);
    press(&mut app, KeyCode::Up);
}

#[test]
fn q_and_esc_quit_from_normal_mode() {
    for key in [KeyCode::Char('q'), KeyCode::Esc] {
        let mut app = app();
        press(&mut app, key);
        assert!(app.quit(), "{key:?} should quit");
    }
}

#[test]
fn ctrl_c_quits_even_while_searching() {
    let mut app = app();
    press(&mut app, KeyCode::Char('/'));
    handle(&mut app, Key::new(KeyCode::Char('c'), true));
    assert!(app.quit());
}

#[test]
fn key_release_events_are_ignored() {
    let mut app = app();
    let mut release = Key::new(KeyCode::Char('j'), false);
    release.kind = KeyKind::Release;
    handle(&mut app, release);
    assert_eq!(
        app.selected(),
        Some(0),
        "a release must not move the cursor"
    );
}

#[test]
fn killing_a_forbidden_pid_reports_an_error_instead_of_panicking() {
    // PID 1 is refused by the kill guardrails.
    let mut app = App::new(vec![entry(80, 1, "init")]);
    press(&mut app, KeyCode::Enter);
    assert!(matches!(app.status(), Some(Status::Error(_))));
}

#[test]
fn a_keystroke_clears_the_previous_status() {
    let mut app = App::new(vec![entry(80, 1, "init")]);
    press(&mut app, KeyCode::Enter);
    assert!(app.status().is_some());
    press(&mut app, KeyCode::Char('j'));
    assert!(app.status().is_none());
}

use portkill::kill::Signal;
use portkill::ports::ScanError;

#[test]
fn control_d_and_u_jump_ten_rows() {
    let entries: Vec<PortEntry> = (0..25).map(|i| entry(1000 + i, 10 + u32::from(i), "svc")).collect();
    let mut app = App::new(entries);
    handle(&mut app, Key::new(KeyCode::Char('d'), true));
    assert_eq!(app.selected(), Some(10));
    handle(&mut app, Key::new(KeyCode::Char('d'), true));
    handle(&mut app, Key::new(KeyCode::Char('d'), true));
    assert_eq!(app.selected(), Some(24));
    handle(&mut app, Key::new(KeyCode::Char('u'), true));
    assert_eq!(app.selected(), Some(14));
    press(&mut app, KeyCode::Home);
    assert_eq!(app.selected(), Some(0));
    press(&mut app, KeyCode::End);
    assert_eq!(app.selected(), Some(24));
}

#[test]
fn enter_and_shift_k_ask_for_the_selected_process() {
    let mut app = app();
    press(&mut app, KeyCode::Char('j'));
    match app.handle_key(Key::new(KeyCode::Enter, false)) {
        Action::Signal(r) => {
            assert_eq!((r.pid, r.port, r.name.as_str(), r.signal), (200, 5432, "postgres", Signal::Term));
        }
        _ => panic!("Enter should ask for SIGTERM"),
    }
    match app.handle_key(Key::new(KeyCode::Char('K'), false)) {
        Action::Signal(r) => assert_eq!(r.signal, Signal::Kill),
        _ => panic!("K should ask for SIGKILL"),
    }
    assert!(matches!(app.handle_key(Key::new(KeyCode::Char('k'), false)), Action::Nothing));
    assert!(matches!(app.handle_key(Key::new(KeyCode::Char('r'), false)), Action::Refresh));
}

#[test]
fn nothing_to_kill_says_so() {
    let mut app = App::new(vec![]);
    press(&mut app, KeyCode::Enter);
    match app.status() {
        Some(Status::Error(text)) => assert_eq!(text, "Nothing selected."),
        _ => panic!("expected an error"),
    }
}

#[test]
fn signal_results_land_in_the_footer() {
    let mut app = app();
    let request = match app.handle_key(Key::new(KeyCode::Enter, false)) {
        Action::Signal(r) => r,
        _ => panic!("Enter should ask for a signal"),
    };
    assert!(matches!(app.signal_sent(&request, Ok(())), Action::Refresh));
    match app.status() {
        Some(Status::Info(text)) => assert_eq!(text, "Sent SIGTERM to node (PID 100) on :3000"),
        _ => panic!("expected a confirmation"),
    }
    let refused = check_target(1, OWN_PID);
    app.signal_sent(&request, refused);
    match app.status() {
        Some(Status::Error(text)) => assert_eq!(text, "refusing to signal PID 1"),
        _ => panic!("expected an error"),
    }
}

#[test]
fn a_failed_rescan_keeps_the_rows_and_says_so() {
    let mut app = app();
    app.refresh(Err(ScanError { cause: "NetLink Error".to_owned() }));
    assert_eq!(app.total_count(), 3);
    match app.status() {
        Some(Status::Error(text)) => {
            assert_eq!(text, "Refresh failed: failed to enumerate network sockets")
        }
        _ => panic!("expected an error"),
    }
}

#[test]
fn a_rescan_keeps_the_highlight_on_the_same_process() {
    let mut app = app();
    press(&mut app, KeyCode::Char('j'));
    app.refresh(Ok(vec![
        entry(22, 50, "sshd"),
        entry(3000, 100, "node"),
        entry(5432, 200, "postgres"),
        entry(8080, 300, "python"),
    ]));
    assert_eq!(app.total_count(), 4);
    assert_eq!(app.selected_entry().unwrap().pid, 200);
}

#[test]
fn a_shorter_rescan_is_taken() {
    let mut app = app();
    press(&mut app, KeyCode::Char('G'));
    assert_eq!(app.selected(), Some(2));
    app.refresh(Ok(vec![entry(8080, 300, "python")]));
    assert_eq!(app.total_count(), 1);
    assert_eq!(app.visible_count(), 1);
    assert_eq!(app.selected_entry().unwrap().pid, 300);
    app.refresh(Ok(vec![]));
    assert_eq!(app.visible_count(), 0);
    assert_eq!(app.selected(), None);
}

#[test]
fn a_rescan_keeps_the_filter() {
    let mut app = app();
    press(&mut app, KeyCode::Char('/'));
    type_query(&mut app, "node");
    app.refresh(Ok(vec![entry(22, 50, "sshd"), entry(3000, 100, "node"), entry(4000, 101, "node")]));
    assert_eq!(app.query(), "node");
    assert!(app.searching());
    assert_eq!(app.visible_count(), 2);
    assert_eq!(app.selected_entry().unwrap().pid, 100);
}

#[test]
fn header_and_empty_texts() {
    let mut app = app();
    assert_eq!(app.header_count(), " 3 listening");
    assert!(!app.shows_search_line());
    press(&mut app, KeyCode::Char('/'));
    assert!(app.shows_search_line());
    type_query(&mut app, "zzzz");
    assert_eq!(app.header_count(), " 0 of 3 listening");
    assert_eq!(app.empty_message(), "No port or process matches “zzzz”.");
    assert_eq!(App::new(vec![]).empty_message(), "No listening ports found.");
}

#[test]
fn best_match_comes_first_then_scan_order() {
    let mut app = App::new(vec![
        entry(1, 1, "xnode"),
        entry(2, 2, "node"),
        entry(3, 3, "nxode"),
        entry(4, 4, "node"),
    ]);
    press(&mut app, KeyCode::Char('/'));
    type_query(&mut app, "node");
    let order: Vec<u32> = app.visible().into_iter().map(|e| e.pid).collect();
    // Equal scores keep scan order; a gap costs.
    assert_eq!(order[0], 2);
    assert_eq!(order[1], 4);
    assert_eq!(order.len(), 4);
}

#[test]
fn footer_hints_follow_the_mode() {
    let mut app = app();
    let keys: Vec<String> = app.hints().into_iter().map(|(k, _)| k).collect();
    assert_eq!(keys, ["j/k", "/", "⏎", "K", "r", "q"]);
    press(&mut app, KeyCode::Char('/'));
    let pairs = app.hints();
    assert_eq!(pairs[0], ("⏎".to_owned(), "apply".to_owned()));
    assert_eq!(pairs.len(), 3);
}
