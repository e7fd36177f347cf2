//! Browse mode: the interaction model, as a state machine.
//!
//! Nothing here touches the terminal. The program feeds key presses in and
//! carries out the actions that come back (rescanning, sending a signal),
//! handing the results back in turn.

use vstd::prelude::*;

use crate::fuzzy::{fuzzy_score, score};
use crate::kill::{error_message, SendError, SendErrorView, Signal};
use crate::ports::{haystack_of, PortEntry, PortEntryView, ScanError};
use crate::text::{decimal, pop_char, push_char, push_decimal};

verus! {

broadcast use vstd::string::group_string_axioms;

/// The one-line message shown in the footer after an action.
pub enum Status {
    Info(String),
    Error(String),
}

/// A `Status` as plain values.
pub enum StatusView {
    Info(Seq<char>),
    Error(Seq<char>),
}

impl View for Status {
    type V = StatusView;

    open spec fn view(&self) -> StatusView {
        match self {
            Status::Info(s) => StatusView::Info(s@),
            Status::Error(s) => StatusView::Error(s@),
        }
    }
}

/// The keys the browser reacts to; everything else is `Other`.
#[derive(Clone, Copy, Debug, PartialEq, Eq, Structural)]
pub enum KeyCode {
    Char(char),
    Esc,
    Enter,
    Backspace,
    Up,
    Down,
    Home,
    End,
    Other,
}

/// Whether a key went down, repeated, or came up.
#[derive(Clone, Copy, Debug, PartialEq, Eq, Structural)]
pub enum KeyKind {
    Press,
    Repeat,
    Release,
}

/// One keyboard event.
#[derive(Clone, Copy, Debug, PartialEq, Eq, Structural)]
pub struct Key {
    pub code: KeyCode,
    /// The Control modifier was held.
    pub ctrl: bool,
    pub kind: KeyKind,
}

impl Key {
    /// A key press.
    pub fn new(code: KeyCode, ctrl: bool) -> (k: Key)
        ensures
            k == (Key { code, ctrl, kind: KeyKind::Press }),
    {
        Key { code, ctrl, kind: KeyKind::Press }
    }
}

/// A signal the user asked for, to be sent by the program.
pub struct SignalRequest {
    pub pid: u32,
    pub name: String,
    pub port: u16,
    pub signal: Signal,
}

/// A `SignalRequest` as plain values.
pub struct SignalRequestView {
    pub pid: u32,
    pub name: Seq<char>,
    pub port: u16,
    pub signal: Signal,
}

impl View for SignalRequest {
    type V = SignalRequestView;

    open spec fn view(&self) -> SignalRequestView {
        SignalRequestView { pid: self.pid, name: self.name@, port: self.port, signal: self.signal }
    }
}

/// What the program has to do after a key press.
pub enum Action {
    Nothing,
    /// Rescan the sockets and hand the result to `App::refresh`.
    Refresh,
    /// Send the signal and hand the result to `App::signal_sent`.
    Signal(SignalRequest),
}

/// An `Action` as plain values.
pub enum ActionView {
    Nothing,
    Refresh,
    Signal { pid: u32, name: Seq<char>, port: u16, signal: Signal },
}

impl View for Action {
    type V = ActionView;

    open spec fn view(&self) -> ActionView {
        match self {
            Action::Nothing => ActionView::Nothing,
            Action::Refresh => ActionView::Refresh,
            Action::Signal(r) => ActionView::Signal {
                pid: r.pid,
                name: r.name@,
                port: r.port,
                signal: r.signal,
            },
        }
    }
}

/// The browser's state.
pub struct App {
    /// Everything found on the last refresh.
    entries: Vec<PortEntry>,
    /// Indices into `entries` that survive the current query, best match first.
    visible: Vec<usize>,
    /// Index into `visible`, not into `entries`.
    selected: usize,
    query: String,
    searching: bool,
    status: Option<Status>,
    quit: bool,
}

/// An `App` as plain values.
#[verifier::ext_equal]
pub struct AppView {
    pub entries: Seq<PortEntryView>,
    pub visible: Seq<usize>,
    pub selected: int,
    pub query: Seq<char>,
    pub searching: bool,
    pub status: Option<StatusView>,
    pub quit: bool,
}

/// The status as plain values.
pub open spec fn status_view(s: Option<Status>) -> Option<StatusView> {
    match s {
        Some(st) => Some(st@),
        None => None,
    }
}

impl View for App {
    type V = AppView;

    closed spec fn view(&self) -> AppView {
        AppView {
            entries: self.entries@.map_values(|e: PortEntry| e@),
            visible: self.visible@,
            selected: self.selected as int,
            query: self.query@,
            searching: self.searching,
            status: status_view(self.status),
            quit: self.quit,
        }
    }
}

/// The filter can score the entry without overflowing its `i32` score.
pub open spec fn fits_filter(e: PortEntryView) -> bool {
    10 * haystack_of(e).len() <= i32::MAX
}

/// Every entry can be scored.
pub open spec fn all_fit(entries: Seq<PortEntryView>) -> bool {
    forall|i: int| 0 <= i < entries.len() ==> fits_filter(#[trigger] entries[i])
}

/// Score of entry `k` against `query`.
pub open spec fn entry_score(entries: Seq<PortEntryView>, query: Seq<char>, k: int) -> Option<int> {
    fuzzy_score(haystack_of(entries[k]), query)
}

/// Entry `a` is listed before entry `b`: better score first, and on equal
/// scores the scan order, so rows don't shuffle under the cursor.
pub open spec fn ranks_before(entries: Seq<PortEntryView>, query: Seq<char>, a: int, b: int) -> bool {
    let sa = entry_score(entries, query, a)->0;
    let sb = entry_score(entries, query, b)->0;
    sa > sb || (sa == sb && a < b)
}

/// `visible` is every entry that matches `query`, best match first.
pub open spec fn ranked(entries: Seq<PortEntryView>, query: Seq<char>, visible: Seq<usize>) -> bool {
    &&& forall|t: int|
        0 <= t < visible.len() ==> #[trigger] visible[t] < entries.len() && entry_score(
            entries,
            query,
            visible[t] as int,
        ) is Some
    &&& forall|k: int|
        0 <= k < entries.len() && (#[trigger] entry_score(entries, query, k)) is Some ==> exists|t: int|
            0 <= t < visible.len() && visible[t] == k
    &&& forall|t1: int, t2: int|
        0 <= t1 < t2 < visible.len() ==> ranks_before(
            entries,
            query,
            #[trigger] visible[t1] as int,
            #[trigger] visible[t2] as int,
        )
}

/// The selection is a row when there are rows, and row zero otherwise.
pub open spec fn selection_ok(visible: Seq<usize>, selected: int) -> bool {
    if visible.len() == 0 {
        selected == 0
    } else {
        0 <= selected < visible.len()
    }
}

/// Port and process of an entry: what the selection follows.
pub open spec fn key_of(e: PortEntryView) -> (u16, u32) {
    (e.port, e.pid)
}

/// Port and process of the row that `selected` points at in `visible`.
pub open spec fn anchor_of(entries: Seq<PortEntryView>, visible: Seq<usize>, selected: int) -> Option<(u16, u32)> {
    if 0 <= selected < visible.len() {
        Some(key_of(entries[visible[selected] as int]))
    } else {
        None
    }
}

/// First row at or after `from` showing the entry with port and process `key`,
/// or `visible.len()` if none does.
pub open spec fn first_with_key(entries: Seq<PortEntryView>, visible: Seq<usize>, key: (u16, u32), from: int) -> int
    decreases visible.len() - from,
{
    if from < 0 || from >= visible.len() {
        visible.len() as int
    } else if key_of(entries[visible[from] as int]) == key {
        from
    } else {
        first_with_key(entries, visible, key, from + 1)
    }
}

/// The row that keeps the highlight on `anchor`'s process where it is still
/// shown, and the top row otherwise.
pub open spec fn anchored(entries: Seq<PortEntryView>, visible: Seq<usize>, anchor: Option<(u16, u32)>) -> int {
    match anchor {
        Some(key) => {
            let p = first_with_key(entries, visible, key, 0);
            if p < visible.len() {
                p
            } else {
                0
            }
        },
        None => 0,
    }
}

/// `visible` is every entry that matches `query`, best first, and the
/// highlight is on the first row showing `anchor`'s port and process, or on
/// the top row if no row does.
pub open spec fn reranked(
    entries: Seq<PortEntryView>,
    query: Seq<char>,
    anchor: Option<(u16, u32)>,
    visible: Seq<usize>,
    selected: int,
) -> bool {
    &&& ranked(entries, query, visible)
    &&& selected == anchored(entries, visible, anchor)
}

/// `visible` and `selected` are what re-ranking against `query` gives when
/// the highlight was on row `old_selected` of `old_visible`.
pub open spec fn refiltered(
    entries: Seq<PortEntryView>,
    query: Seq<char>,
    old_visible: Seq<usize>,
    old_selected: int,
    visible: Seq<usize>,
    selected: int,
) -> bool {
    reranked(entries, query, anchor_of(entries, old_visible, old_selected), visible, selected)
}

/// The row that old row `selected` points at is an index of `entries`.
pub open spec fn anchor_in_bounds(entries_len: int, visible: Seq<usize>, selected: int) -> bool {
    0 <= selected < visible.len() ==> visible[selected] < entries_len
}

/// `v` with the highlight on row `selected`.
pub open spec fn with_selected(v: AppView, selected: int) -> AppView {
    AppView { selected, ..v }
}

/// `v` with footer message `status`.
pub open spec fn with_status(v: AppView, status: Option<StatusView>) -> AppView {
    AppView { status, ..v }
}

/// The footer message after a signal request: what was sent, or why not.
pub open spec fn signal_status(request: SignalRequestView, result: Result<(), SendErrorView>) -> StatusView {
    match result {
        Ok(()) => StatusView::Info(sent_status(request.signal, request.name, request.pid, request.port)),
        Err(e) => StatusView::Error(error_message(e)),
    }
}

/// The highlighted row after moving it by `delta` rows, stopping at the
/// first and the last row; nothing moves when there are no rows.
pub open spec fn moved(v: AppView, delta: int) -> int {
    if v.visible.len() == 0 {
        v.selected
    } else if v.selected + delta < 0 {
        0
    } else if v.selected + delta > v.visible.len() - 1 {
        v.visible.len() - 1
    } else {
        v.selected + delta
    }
}

/// `w` is `p` with the query set to `query`, searching set to `searching`,
/// and the rows re-ranked against the new query.
pub open spec fn filtered_to(p: AppView, query: Seq<char>, searching: bool, w: AppView) -> bool {
    &&& w.entries == p.entries
    &&& w.query == query
    &&& w.searching == searching
    &&& w.status == p.status
    &&& w.quit == p.quit
    &&& refiltered(p.entries, query, p.visible, p.selected, w.visible, w.selected)
}

/// Asking for `signal`: the highlighted entry's process is the target, or,
/// with no rows, the footer says that nothing is selected.
pub open spec fn kill_requested(p: AppView, signal: Signal, w: AppView, a: ActionView) -> bool {
    if p.visible.len() == 0 {
        w == AppView { status: Some(StatusView::Error("Nothing selected."@)), ..p } && a == ActionView::Nothing
    } else {
        let e = p.entries[p.visible[p.selected] as int];
        w == p && a == (ActionView::Signal { pid: e.pid, name: e.name, port: e.port, signal })
    }
}

/// How the browser reacts to `key`: `v` is the state before, `w` after, and
/// `a` what the program has to do next.
pub open spec fn after_key(v: AppView, key: Key, w: AppView, a: ActionView) -> bool {
    if key.kind != KeyKind::Press {
        // Terminals that report releases would otherwise double every keystroke.
        w == v && a == ActionView::Nothing
    } else {
        // A new keystroke means the last message has been read.
        let p = AppView { status: None, ..v };
        if key.ctrl {
            a == ActionView::Nothing && w == match key.code {
                KeyCode::Char('c') => AppView { quit: true, ..p },
                KeyCode::Char('d') => AppView { selected: moved(p, 10), ..p },
                KeyCode::Char('u') => AppView { selected: moved(p, -10), ..p },
                _ => p,
            }
        } else if v.searching {
            match key.code {
                KeyCode::Esc => a == ActionView::Nothing && filtered_to(p, Seq::empty(), false, w),
                KeyCode::Enter => a == ActionView::Nothing && w == AppView { searching: false, ..p },
                KeyCode::Backspace => a == ActionView::Nothing && filtered_to(
                    p,
                    if p.query.len() > 0 {
                        p.query.drop_last()
                    } else {
                        p.query
                    },
                    true,
                    w,
                ),
                KeyCode::Char(c) => a == ActionView::Nothing && filtered_to(p, p.query.push(c), true, w),
                KeyCode::Down => a == ActionView::Nothing && w == AppView { selected: moved(p, 1), ..p },
                KeyCode::Up => a == ActionView::Nothing && w == AppView { selected: moved(p, -1), ..p },
                _ => a == ActionView::Nothing && w == p,
            }
        } else {
            match key.code {
                KeyCode::Char('q') | KeyCode::Esc => a == ActionView::Nothing && w == AppView { quit: true, ..p },
                KeyCode::Char('j') | KeyCode::Down => a == ActionView::Nothing && w == AppView {
                    selected: moved(p, 1),
                    ..p
                },
                KeyCode::Char('k') | KeyCode::Up => a == ActionView::Nothing && w == AppView {
                    selected: moved(p, -1),
                    ..p
                },
                KeyCode::Char('g') | KeyCode::Home => a == ActionView::Nothing && w == AppView { selected: 0, ..p },
                KeyCode::Char('G') | KeyCode::End => a == ActionView::Nothing && w == AppView {
                    selected: if p.visible.len() == 0 {
                        0
                    } else {
                        p.visible.len() - 1
                    },
                    ..p
                },
                KeyCode::Char('/') => a == ActionView::Nothing && w == AppView { searching: true, ..p },
                KeyCode::Char('r') => a == ActionView::Refresh && w == p,
                KeyCode::Enter => kill_requested(p, Signal::Term, w, a),
                // Shift+K, distinct from lowercase `k`, which is vim's "up".
                KeyCode::Char('K') => kill_requested(p, Signal::Kill, w, a),
                _ => a == ActionView::Nothing && w == p,
            }
        }
    }
}

/// The footer's key hints, as key and label.
pub open spec fn hint_list(searching: bool) -> Seq<(Seq<char>, Seq<char>)> {
    if searching {
        seq![("⏎"@, "apply"@), ("esc"@, "clear"@), ("↑↓"@, "move"@)]
    } else {
        seq![
            ("j/k"@, "move"@),
            ("/"@, "search"@),
            ("⏎"@, "SIGTERM"@),
            ("K"@, "SIGKILL"@),
            ("r"@, "refresh"@),
            ("q"@, "quit"@),
        ]
    }
}

/// The footer message when a rescan fails.
pub open spec fn refresh_failed() -> Seq<char> {
    "Refresh failed: "@ + "failed to enumerate network sockets"@
}

/// The result of a signal request as plain values.
pub open spec fn result_view(r: Result<(), SendError>) -> Result<(), SendErrorView> {
    match r {
        Ok(()) => Ok(()),
        Err(e) => Err(e@),
    }
}

/// The footer message after sending `signal` to process `pid`, named
/// `name`, on `port`.
pub open spec fn sent_status(signal: Signal, name: Seq<char>, pid: u32, port: u16) -> Seq<char> {
    "Sent "@ + signal.label() + " to "@ + name + " (PID "@ + decimal(pid as nat) + ") on :"@ + decimal(port as nat)
}

/// Scores paired with entry indices, best score first, ties by index.
pub open spec fn by_rank(s: Seq<(i32, usize)>) -> bool {
    forall|t1: int, t2: int|
        0 <= t1 < t2 < s.len() ==> ((#[trigger] s[t1]).0 > (#[trigger] s[t2]).0 || (s[t1].0 == s[t2].0
            && s[t1].1 < s[t2].1))
}

/// `s` holds, ranked, the score of every entry before `k` that matches.
pub open spec fn scored_upto(entries: Seq<PortEntryView>, query: Seq<char>, k: int, s: Seq<(i32, usize)>) -> bool {
    &&& by_rank(s)
    &&& forall|t: int|
        0 <= t < s.len() ==> (#[trigger] s[t]).1 < k && entry_score(entries, query, s[t].1 as int) == Some(
            s[t].0 as int,
        )
    &&& forall|j: int|
        0 <= j < k && (#[trigger] entry_score(entries, query, j)) is Some ==> exists|t: int|
            0 <= t < s.len() && s[t].1 == j
}

/// Puts `(v, k)` into its ranked place, after everything scored at least `v`.
fn insert_ranked(scored: &mut Vec<(i32, usize)>, v: i32, k: usize) -> (pos: usize)
    requires
        by_rank(old(scored)@),
        forall|t: int| 0 <= t < old(scored)@.len() ==> (#[trigger] old(scored)@[t]).1 < k,
    ensures
        by_rank(final(scored)@),
        pos <= old(scored)@.len(),
        final(scored)@ == old(scored)@.insert(pos as int, (v, k)),
{
    let mut pos: usize = 0;
    while pos < scored.len() && scored[pos].0 >= v
        invariant
            pos <= scored@.len(),
            forall|t: int| 0 <= t < pos ==> (#[trigger] scored@[t]).0 >= v,
        decreases scored@.len() - pos,
    {
        pos = pos + 1;
    }
    let ghost before = scored@;
    scored.insert(pos, (v, k));
    assert forall|t1: int, t2: int|
        0 <= t1 < t2 < scored@.len() implies ((#[trigger] scored@[t1]).0 > (#[trigger] scored@[t2]).0 || (
        scored@[t1].0 == scored@[t2].0 && scored@[t1].1 < scored@[t2].1)) by {
        if t2 < pos {
            assert(scored@[t1] == before[t1]);
            assert(scored@[t2] == before[t2]);
        } else if t2 == pos {
            assert(scored@[t1] == before[t1]);
            assert(before[t1].0 >= v);
        } else if t1 < pos {
            assert(scored@[t1] == before[t1]);
            assert(scored@[t2] == before[t2 - 1]);
            assert(before[pos as int].0 < v);
            if t2 - 1 > pos {
                assert(before[pos as int].0 >= before[t2 - 1].0);
            }
        } else if t1 == pos {
            assert(scored@[t2] == before[t2 - 1]);
            assert(before[pos as int].0 < v);
            if t2 - 1 > pos {
                assert(before[pos as int].0 >= before[t2 - 1].0);
            }
        } else {
            assert(scored@[t2] == before[t2 - 1]);
            assert(scored@[t1] == before[t1 - 1]);
        }
    }
    pos
}

proof fn lemma_scored_step(
    entries: Seq<PortEntryView>,
    query: Seq<char>,
    k: int,
    before: Seq<(i32, usize)>,
    after: Seq<(i32, usize)>,
    v: i32,
    matched: bool,
    pos: int,
)
    requires
        0 <= k,
        scored_upto(entries, query, k, before),
        by_rank(after),
        matched ==> entry_score(entries, query, k) == Some(v as int),
        matched ==> 0 <= pos <= before.len() && after == before.insert(pos, (v, k as usize)),
        !matched ==> entry_score(entries, query, k) is None && after == before,
        k < usize::MAX,
    ensures
        scored_upto(entries, query, k + 1, after),
{
    if matched {
        assert forall|t: int|
            0 <= t < after.len() implies (#[trigger] after[t]).1 < k + 1 && entry_score(entries, query, after[t].1 as int)
                == Some(after[t].0 as int) by {
            if t < pos {
                assert(after[t] == before[t]);
            } else if t > pos {
                assert(after[t] == before[t - 1]);
            }
        }
        assert forall|j: int|
            0 <= j < k + 1 && (#[trigger] entry_score(entries, query, j)) is Some implies exists|t: int|
                0 <= t < after.len() && after[t].1 == j by {
            if j == k {
                assert(after[pos].1 == j);
            } else {
                let t = choose|t: int| 0 <= t < before.len() && before[t].1 == j;
                if t < pos {
                    assert(after[t] == before[t]);
                } else {
                    assert(after[t + 1] == before[t]);
                }
            }
        }
    }
}

impl App {
    /// The browser's invariant: the rows are exactly the ranked matches of
    /// the query, and the selection is on a row.
    pub closed spec fn wf(&self) -> bool {
        &&& all_fit(self@.entries)
        &&& ranked(self@.entries, self@.query, self@.visible)
        &&& selection_ok(self@.visible, self@.selected)
    }

    /// What every browser holds, whatever keys and rescans it has seen: every
    /// entry can be scored; the rows are exactly the entries that match the
    /// query, best first, each shown once, so there are never more rows than
    /// entries; and the highlight is on a row whenever there is one.
    pub proof fn lemma_invariant(&self)
        requires
            self.wf(),
        ensures
            all_fit(self@.entries),
            ranked(self@.entries, self@.query, self@.visible),
            selection_ok(self@.visible, self@.selected),
            forall|t1: int, t2: int|
                0 <= t1 < t2 < self@.visible.len() ==> #[trigger] self@.visible[t1] != #[trigger] self@.visible[t2],
            self@.visible.len() <= self@.entries.len(),
    {
        lemma_rows_distinct(self@.entries, self@.query, self@.visible);
    }

    /// Port and process of the highlighted row's entry, if there are rows.
    fn current_anchor(&self) -> (anchor: Option<(u16, u32)>)
        requires
            anchor_in_bounds(self@.entries.len() as int, self@.visible, self@.selected),
        ensures
            anchor == anchor_of(self@.entries, self@.visible, self@.selected),
    {
        if self.selected < self.visible.len() {
            let i = self.visible[self.selected];
            assert(self@.entries[i as int] == self.entries@[i as int]@);
            Some((self.entries[i].port, self.entries[i].pid))
        } else {
            None
        }
    }

    /// Re-rank `visible` against the current query, keeping the highlighted
    /// row on the same process where possible.
    fn apply_filter(&mut self)
        requires
            all_fit(old(self)@.entries),
            anchor_in_bounds(old(self)@.entries.len() as int, old(self)@.visible, old(self)@.selected),
        ensures
            final(self)@.entries == old(self)@.entries,
            final(self)@.query == old(self)@.query,
            final(self)@.searching == old(self)@.searching,
            final(self)@.status == old(self)@.status,
            final(self)@.quit == old(self)@.quit,
            refiltered(
                old(self)@.entries,
                old(self)@.query,
                old(self)@.visible,
                old(self)@.selected,
                final(self)@.visible,
                final(self)@.selected,
            ),
            final(self).wf(),
    {
        let anchor = self.current_anchor();
        self.rank(anchor);
    }

    /// Rank the entries against the query and put the highlight on `anchor`'s
    /// process where a row still shows it.
    fn rank(&mut self, anchor: Option<(u16, u32)>)
        requires
            all_fit(old(self)@.entries),
        ensures
            final(self)@.entries == old(self)@.entries,
            final(self)@.query == old(self)@.query,
            final(self)@.searching == old(self)@.searching,
            final(self)@.status == old(self)@.status,
            final(self)@.quit == old(self)@.quit,
            reranked(old(self)@.entries, old(self)@.query, anchor, final(self)@.visible, final(self)@.selected),
            final(self).wf(),
    {
        let ghost ents = self@.entries;
        let ghost q = self@.query;
        let mut scored: Vec<(i32, usize)> = Vec::new();
        let mut k: usize = 0;
        while k < self.entries.len()
            invariant
                ents == self@.entries,
                q == self@.query,
                all_fit(ents),
                k <= ents.len(),
                scored_upto(ents, q, k as int, scored@),
            decreases ents.len() - k,
        {
            let h = self.entries[k].haystack();
            assert(ents[k as int] == self.entries@[k as int]@);
            assert(fits_filter(ents[k as int]));
            let s = score(h.as_str(), self.query.as_str());
            assert(k < usize::MAX);
            match s {
                Some(v) => {
                    let ghost before = scored@;
                    let pos = insert_ranked(&mut scored, v, k);
                    proof {
                        lemma_scored_step(ents, q, k as int, before, scored@, v, true, pos as int);
                    }
                },
                None => {
                    proof {
                        lemma_scored_step(ents, q, k as int, scored@, scored@, 0, false, 0);
                    }
                },
            }
            k = k + 1;
        }
        let mut visible: Vec<usize> = Vec::new();
        let mut t: usize = 0;
        while t < scored.len()
            invariant
                t <= scored@.len(),
                visible@.len() == t,
                forall|u: int| 0 <= u < t ==> visible@[u] == (#[trigger] scored@[u]).1,
            decreases scored@.len() - t,
        {
            visible.push(scored[t].1);
            t = t + 1;
        }
        assert forall|t1: int, t2: int|
            0 <= t1 < t2 < visible@.len() implies ranks_before(ents, q, #[trigger] visible@[t1] as int, #[trigger] visible@[t2] as int) by {
            assert(visible@[t1] == scored@[t1].1);
            assert(visible@[t2] == scored@[t2].1);
        }
        assert forall|j: int|
            0 <= j < ents.len() && (#[trigger] entry_score(ents, q, j)) is Some implies exists|u: int|
                0 <= u < visible@.len() && visible@[u] == j by {
            let u = choose|u: int| 0 <= u < scored@.len() && scored@[u].1 == j;
            assert(visible@[u] == j);
        }
        assert forall|u: int| 0 <= u < visible@.len() implies #[trigger] visible@[u] < ents.len() && entry_score(
            ents,
            q,
            visible@[u] as int,
        ) is Some by {
            assert(visible@[u] == scored@[u].1);
        }
        let mut selected: usize = 0;
        match anchor {
            Some(key) => {
                let mut p: usize = 0;
                let mut found = false;
                while p < visible.len() && !found
                    invariant
                        p <= visible@.len(),
                        ents == self@.entries,
                        forall|u: int| 0 <= u < visible@.len() ==> #[trigger] visible@[u] < ents.len(),
                        !found ==> first_with_key(ents, visible@, key, 0) == first_with_key(ents, visible@, key, p as int),
                        found ==> p < visible@.len() && first_with_key(ents, visible@, key, 0) == p,
                    decreases visible@.len() - p + (if found { 0int } else { 1int }),
                {
                    let i = visible[p];
                    assert(ents[i as int] == self.entries@[i as int]@);
                    if self.entries[i].port == key.0 && self.entries[i].pid == key.1 {
                        found = true;
                    } else {
                        p = p + 1;
                    }
                }
                if found {
                    selected = p;
                }
            },
            None => {},
        }
        self.visible = visible;
        self.selected = selected;
    }

    /// A browser over `entries`, with no filter and the top row selected.
    pub fn new(entries: Vec<PortEntry>) -> (app: Self)
        requires
            all_fit(entries@.map_values(|e: PortEntry| e@)),
        ensures
            app.wf(),
            app@.entries == entries@.map_values(|e: PortEntry| e@),
            app@.query.len() == 0,
            !app@.searching,
            app@.status is None,
            !app@.quit,
            refiltered(app@.entries, app@.query, Seq::empty(), 0, app@.visible, app@.selected),
            app@.visible.len() == app@.entries.len(),
            forall|t: int| 0 <= t < app@.visible.len() ==> #[trigger] app@.visible[t] == t,
            app@.selected == 0,
    {
        let mut app = App {
            entries,
            visible: Vec::new(),
            selected: 0,
            query: String::new(),
            searching: false,
            status: None,
            quit: false,
        };
        app.apply_filter();
        proof {
            lemma_empty_query_shows_all(app@.entries, app@.query, app@.visible);
        }
        app
    }

    /// The entries that survive the current query, best match first.
    pub fn visible(&self) -> (rows: Vec<&PortEntry>)
        requires
            self.wf(),
        ensures
            rows@.len() == self@.visible.len(),
            forall|t: int| 0 <= t < rows@.len() ==> (#[trigger] rows@[t])@ == self@.entries[self@.visible[t] as int],
    {
        let mut rows: Vec<&PortEntry> = Vec::new();
        let mut t: usize = 0;
        while t < self.visible.len()
            invariant
                self.wf(),
                t <= self@.visible.len(),
                rows@.len() == t,
                forall|u: int| 0 <= u < t ==> (#[trigger] rows@[u])@ == self@.entries[self@.visible[u] as int],
            decreases self@.visible.len() - t,
        {
            let i = self.visible[t];
            assert(self@.visible[t as int] == i);
            assert(self@.entries[i as int] == self.entries@[i as int]@);
            rows.push(&self.entries[i]);
            t = t + 1;
        }
        rows
    }

    /// Number of rows the current query leaves.
    pub fn visible_count(&self) -> (n: usize)
        ensures
            n == self@.visible.len(),
    {
        self.visible.len()
    }

    /// Number of entries found by the last refresh, whatever the query.
    pub fn total_count(&self) -> (n: usize)
        ensures
            n == self@.entries.len(),
    {
        self.entries.len()
    }

    /// The highlighted row, if there are any rows.
    pub fn selected(&self) -> (r: Option<usize>)
        ensures
            self@.visible.len() == 0 ==> r is None,
            self@.visible.len() > 0 ==> r == Some(self@.selected as usize),
    {
        if self.visible.len() > 0 {
            Some(self.selected)
        } else {
            None
        }
    }

    /// The entry on the highlighted row, if there is one.
    pub fn selected_entry(&self) -> (r: Option<&PortEntry>)
        requires
            self.wf(),
        ensures
            self@.visible.len() == 0 ==> r is None,
            self@.visible.len() > 0 ==> r is Some && r->0@ == self@.entries[self@.visible[self@.selected] as int],
    {
        if self.selected < self.visible.len() {
            let i = self.visible[self.selected];
            assert(self@.entries[i as int] == self.entries@[i as int]@);
            Some(&self.entries[i])
        } else {
            None
        }
    }

    /// The filter text typed so far.
    pub fn query(&self) -> (q: &str)
        ensures
            q@ == self@.query,
    {
        self.query.as_str()
    }

    /// Whether keys currently go to the filter.
    pub fn searching(&self) -> (b: bool)
        ensures
            b == self@.searching,
    {
        self.searching
    }

    /// The footer message, if the last action left one.
    pub fn status(&self) -> (r: Option<&Status>)
        ensures
            match r {
                Some(st) => self@.status == Some(st@),
                None => self@.status is None,
            },
    {
        match &self.status {
            Some(st) => Some(st),
            None => None,
        }
    }

    /// The count shown in the header bar; the filtered count is only
    /// mentioned when it differs, to keep the bar quiet.
    pub fn header_count(&self) -> (s: String)
        ensures
            self@.visible.len() == self@.entries.len() ==> s@ == " "@ + decimal(self@.entries.len()) + " listening"@,
            self@.visible.len() != self@.entries.len() ==> s@ == " "@ + decimal(self@.visible.len()) + " of "@
                + decimal(self@.entries.len()) + " listening"@,
    {
        let shown = self.visible.len();
        let total = self.entries.len();
        let mut s = " ".to_string();
        if shown == total {
            push_decimal(&mut s, total as u64);
        } else {
            push_decimal(&mut s, shown as u64);
            s.append(" of ");
            push_decimal(&mut s, total as u64);
        }
        s.append(" listening");
        s
    }

    /// What the body says when there are no rows to show.
    pub fn empty_message(&self) -> (s: String)
        ensures
            self@.entries.len() == 0 ==> s@ == "No listening ports found."@,
            self@.entries.len() != 0 ==> s@ == "No port or process matches “"@ + self@.query + "”."@,
    {
        if self.entries.len() == 0 {
            "No listening ports found.".to_string()
        } else {
            let mut s = "No port or process matches “".to_string();
            s.append(self.query.as_str());
            s.append("”.");
            s
        }
    }

    /// The search line only earns its row while the filter is in play.
    pub fn shows_search_line(&self) -> (b: bool)
        ensures
            b == (self@.searching || self@.query.len() > 0),
    {
        self.searching || !self.query.as_str().is_empty()
    }

    /// The key hints the footer shows when there is no message: the filter's
    /// keys while searching, the browser's otherwise.
    pub fn hints(&self) -> (r: Vec<(String, String)>)
        ensures
            r@.map_values(|p: (String, String)| (p.0@, p.1@)) == hint_list(self@.searching),
    {
        let mut r: Vec<(String, String)> = Vec::new();
        if self.searching {
            r.push(("⏎".to_string(), "apply".to_string()));
            r.push(("esc".to_string(), "clear".to_string()));
            r.push(("↑↓".to_string(), "move".to_string()));
        } else {
            r.push(("j/k".to_string(), "move".to_string()));
            r.push(("/".to_string(), "search".to_string()));
            r.push(("⏎".to_string(), "SIGTERM".to_string()));
            r.push(("K".to_string(), "SIGKILL".to_string()));
            r.push(("r".to_string(), "refresh".to_string()));
            r.push(("q".to_string(), "quit".to_string()));
        }
        assert(r@.map_values(|p: (String, String)| (p.0@, p.1@)) =~= hint_list(self@.searching));
        r
    }

    /// Whether the user asked to leave.
    pub fn quit(&self) -> (b: bool)
        ensures
            b == self@.quit,
    {
        self.quit
    }

    fn move_selection(&mut self, delta: i64)
        requires
            old(self).wf(),
        ensures
            final(self).wf(),
            final(self)@ == with_selected(old(self)@, moved(old(self)@, delta as int)),
    {
        if self.visible.len() == 0 {
            return;
        }
        let last = self.visible.len() - 1;
        let target: i128 = self.selected as i128 + delta as i128;
        if target < 0 {
            self.selected = 0;
        } else if target > last as i128 {
            self.selected = last;
        } else {
            self.selected = target as usize;
        }
    }

    fn kill_selected(&mut self, signal: Signal) -> (a: Action)
        requires
            old(self).wf(),
        ensures
            final(self).wf(),
            kill_requested(old(self)@, signal, final(self)@, a@),
    {
        if self.selected >= self.visible.len() {
            let s = "Nothing selected.".to_string();
            self.status = Some(Status::Error(s));
            return Action::Nothing;
        }
        let i = self.visible[self.selected];
        assert(self@.entries[i as int] == self.entries@[i as int]@);
        let entry = &self.entries[i];
        Action::Signal(SignalRequest { pid: entry.pid, name: entry.name.clone(), port: entry.port, signal })
    }

    fn handle_search_key(&mut self, key: Key) -> (a: Action)
        requires
            old(self).wf(),
            old(self)@.searching,
            old(self)@.status is None,
        ensures
            final(self).wf(),
            after_key(old(self)@, key, final(self)@, a@) || key.kind != KeyKind::Press || key.ctrl,
    {
        match key.code {
            // Esc abandons the search; Enter keeps the filter and hands the
            // keyboard back to the normal-mode bindings.
            KeyCode::Esc => {
                self.searching = false;
                self.query = String::new();
                self.apply_filter();
            },
            KeyCode::Enter => self.searching = false,
            KeyCode::Backspace => {
                pop_char(&mut self.query);
                self.apply_filter();
            },
            KeyCode::Char(c) => {
                push_char(&mut self.query, c);
                self.apply_filter();
            },
            // Let the user aim while still typing.
            KeyCode::Down => self.move_selection(1),
            KeyCode::Up => self.move_selection(-1),
            _ => {},
        }
        Action::Nothing
    }

    /// React to one key; the program carries out the action that comes back.
    pub fn handle_key(&mut self, key: Key) -> (a: Action)
        requires
            old(self).wf(),
        ensures
            final(self).wf(),
            after_key(old(self)@, key, final(self)@, a@),
    {
        if key.kind != KeyKind::Press {
            return Action::Nothing;
        }
        self.status = None;
        if key.ctrl {
            match key.code {
                KeyCode::Char('c') => self.quit = true,
                KeyCode::Char('d') => self.move_selection(10),
                KeyCode::Char('u') => self.move_selection(-10),
                _ => {},
            }
            return Action::Nothing;
        }
        if self.searching {
            return self.handle_search_key(key);
        }
        match key.code {
            KeyCode::Char('q') | KeyCode::Esc => {
                self.quit = true;
                Action::Nothing
            },
            KeyCode::Char('j') | KeyCode::Down => {
                self.move_selection(1);
                Action::Nothing
            },
            KeyCode::Char('k') | KeyCode::Up => {
                self.move_selection(-1);
                Action::Nothing
            },
            KeyCode::Char('g') | KeyCode::Home => {
                self.selected = 0;
                Action::Nothing
            },
            KeyCode::Char('G') | KeyCode::End => {
                self.selected = if self.visible.len() == 0 {
                    0
                } else {
                    self.visible.len() - 1
                };
                Action::Nothing
            },
            KeyCode::Char('/') => {
                self.searching = true;
                Action::Nothing
            },
            KeyCode::Char('r') => Action::Refresh,
            KeyCode::Enter => self.kill_selected(Signal::Term),
            KeyCode::Char('K') => self.kill_selected(Signal::Kill),
            _ => Action::Nothing,
        }
    }

    /// Record how sending the requested signal went; the entries are to be
    /// rescanned next, since the process usually needs a moment to exit.
    pub fn signal_sent(&mut self, request: &SignalRequest, result: Result<(), SendError>) -> (a: Action)
        requires
            old(self).wf(),
        ensures
            final(self).wf(),
            a@ == ActionView::Refresh,
            final(self)@ == with_status(old(self)@, Some(signal_status(request@, result_view(result)))),
    {
        let status = match result {
            Ok(()) => {
                let mut s = "Sent ".to_string();
                let sig = request.signal.to_string();
                s.append(sig.as_str());
                s.append(" to ");
                s.append(request.name.as_str());
                s.append(" (PID ");
                push_decimal(&mut s, request.pid as u64);
                s.append(") on :");
                push_decimal(&mut s, request.port as u64);
                Status::Info(s)
            },
            Err(e) => Status::Error(e.message()),
        };
        self.status = Some(status);
        Action::Refresh
    }

    /// Take the result of a rescan: new entries are re-ranked against the
    /// query with the highlight kept on the same process where it is still
    /// shown, and a failure is reported in the footer.
    pub fn refresh(&mut self, scanned: Result<Vec<PortEntry>, ScanError>)
        requires
            old(self).wf(),
            scanned matches Ok(v) ==> all_fit(v@.map_values(|e: PortEntry| e@)),
        ensures
            final(self).wf(),
            match scanned {
                Ok(v) => {
                    &&& final(self)@.entries == v@.map_values(|e: PortEntry| e@)
                    &&& final(self)@.query == old(self)@.query
                    &&& final(self)@.searching == old(self)@.searching
                    &&& final(self)@.status == old(self)@.status
                    &&& final(self)@.quit == old(self)@.quit
                    &&& reranked(
                        final(self)@.entries,
                        old(self)@.query,
                        anchor_of(old(self)@.entries, old(self)@.visible, old(self)@.selected),
                        final(self)@.visible,
                        final(self)@.selected,
                    )
                },
                Err(_) => final(self)@ == with_status(old(self)@, Some(StatusView::Error(refresh_failed()))),
            },
    {
        match scanned {
            Ok(entries) => {
                // The highlight follows the process it is on, so note which
                // one before the entries change.
                let anchor = self.current_anchor();
                self.entries = entries;
                self.rank(anchor);
            },
            Err(err) => {
                let mut s = "Refresh failed: ".to_string();
                let m = err.message();
                s.append(m.as_str());
                self.status = Some(Status::Error(s));
            },
        }
    }
}

/// With an empty query every entry is shown, in scan order.
pub proof fn lemma_empty_query_shows_all(entries: Seq<PortEntryView>, query: Seq<char>, visible: Seq<usize>)
    requires
        query.len() == 0,
        ranked(entries, query, visible),
    ensures
        visible.len() == entries.len(),
        forall|t: int| 0 <= t < visible.len() ==> visible[t] == t,
{
    assert forall|t1: int, t2: int| 0 <= t1 < t2 < visible.len() implies visible[t1] < visible[t2] by {
        assert(ranks_before(entries, query, visible[t1] as int, visible[t2] as int));
    }
    assert forall|k: int| 0 <= k < entries.len() implies visible.len() > k && visible[k] == k by {
        lemma_shown_at_own_index(entries, query, visible, k);
    }
    if visible.len() < entries.len() {
        lemma_shown_at_own_index(entries, query, visible, visible.len() as int);
    }
    if visible.len() > entries.len() {
        let n = entries.len() as int;
        if n == 0 {
            assert(visible[0] < entries.len());
        } else {
            assert(visible[n - 1] == n - 1);
            assert(visible[n - 1] < visible[n]);
            assert(visible[n] < entries.len());
        }
    }
}

/// Ranked rows name distinct entries, so there are no more of them than
/// entries.
proof fn lemma_rows_distinct(entries: Seq<PortEntryView>, query: Seq<char>, visible: Seq<usize>)
    requires
        ranked(entries, query, visible),
    ensures
        forall|t1: int, t2: int| 0 <= t1 < t2 < visible.len() ==> #[trigger] visible[t1] != #[trigger] visible[t2],
        visible.len() <= entries.len(),
{
    assert forall|t1: int, t2: int| 0 <= t1 < t2 < visible.len() implies #[trigger] visible[t1] != #[trigger] visible[t2] by {
        assert(ranks_before(entries, query, visible[t1] as int, visible[t2] as int));
    }
    let rows = visible.map_values(|x: usize| x as int);
    assert(rows.no_duplicates()) by {
        assert forall|i: int, j: int| 0 <= i < rows.len() && 0 <= j < rows.len() && i != j implies rows[i] != rows[j] by {
            if i < j {
                assert(visible[i] != visible[j]);
            } else {
                assert(visible[j] != visible[i]);
            }
        }
    }
    rows.unique_seq_to_set();
    vstd::set_lib::lemma_int_range(0, entries.len() as int);
    assert(rows.to_set().subset_of(vstd::set_lib::set_int_range(0, entries.len() as int))) by {
        assert forall|x: int| rows.to_set().contains(x) implies vstd::set_lib::set_int_range(0, entries.len() as int).contains(x) by {
            let i = choose|i: int| 0 <= i < rows.len() && rows[i] == x;
            assert(visible[i] < entries.len());
        }
    }
    vstd::set_lib::lemma_len_subset(rows.to_set(), vstd::set_lib::set_int_range(0, entries.len() as int));
}

proof fn lemma_shown_at_own_index(entries: Seq<PortEntryView>, query: Seq<char>, visible: Seq<usize>, k: int)
    requires
        query.len() == 0,
        ranked(entries, query, visible),
        forall|t1: int, t2: int| 0 <= t1 < t2 < visible.len() ==> visible[t1] < visible[t2],
        0 <= k < entries.len(),
    ensures
        visible.len() > k && visible[k] == k,
    decreases k,
{
    if k > 0 {
        lemma_shown_at_own_index(entries, query, visible, k - 1);
    }
    assert(entry_score(entries, query, k) is Some);
    let t = choose|t: int| 0 <= t < visible.len() && visible[t] == k;
    if t < k {
        lemma_shown_at_own_index(entries, query, visible, t);
    }
    if t > k {
        assert(visible[k] < visible[t]);
        if k > 0 {
            lemma_shown_at_own_index(entries, query, visible, k - 1);
            assert(visible[k - 1] < visible[k]);
        }
    }
}

/// After re-ranking, the highlight is on the anchored process whenever a row
/// still shows it.
pub proof fn lemma_highlight_stays_on_anchor(
    entries: Seq<PortEntryView>,
    query: Seq<char>,
    key: (u16, u32),
    visible: Seq<usize>,
    selected: int,
    t: int,
)
    requires
        reranked(entries, query, Some(key), visible, selected),
        0 <= t < visible.len(),
        key_of(entries[visible[t] as int]) == key,
    ensures
        0 <= selected < visible.len(),
        key_of(entries[visible[selected] as int]) == key,
{
    lemma_first_with_key(entries, visible, key, 0, t);
}

/// After the filter changes, the highlight stays on the process it was on
/// whenever that process is still shown.
pub proof fn lemma_selection_follows_process(
    entries: Seq<PortEntryView>,
    query: Seq<char>,
    old_visible: Seq<usize>,
    old_selected: int,
    visible: Seq<usize>,
    selected: int,
    t: int,
)
    requires
        refiltered(entries, query, old_visible, old_selected, visible, selected),
        0 <= old_selected < old_visible.len(),
        0 <= t < visible.len(),
        key_of(entries[visible[t] as int]) == key_of(entries[old_visible[old_selected] as int]),
    ensures
        0 <= selected < visible.len(),
        key_of(entries[visible[selected] as int]) == key_of(entries[old_visible[old_selected] as int]),
{
    lemma_highlight_stays_on_anchor(entries, query, key_of(entries[old_visible[old_selected] as int]), visible, selected, t);
}

/// After a rescan, the highlight stays on the process it was on whenever the
/// new entries still show that process.
pub proof fn lemma_rescan_keeps_highlight(
    old_entries: Seq<PortEntryView>,
    old_visible: Seq<usize>,
    old_selected: int,
    entries: Seq<PortEntryView>,
    query: Seq<char>,
    visible: Seq<usize>,
    selected: int,
    t: int,
)
    requires
        reranked(entries, query, anchor_of(old_entries, old_visible, old_selected), visible, selected),
        0 <= old_selected < old_visible.len(),
        0 <= t < visible.len(),
        key_of(entries[visible[t] as int]) == key_of(old_entries[old_visible[old_selected] as int]),
    ensures
        0 <= selected < visible.len(),
        key_of(entries[visible[selected] as int]) == key_of(old_entries[old_visible[old_selected] as int]),
{
    lemma_highlight_stays_on_anchor(
        entries,
        query,
        key_of(old_entries[old_visible[old_selected] as int]),
        visible,
        selected,
        t,
    );
}

proof fn lemma_first_with_key(entries: Seq<PortEntryView>, visible: Seq<usize>, key: (u16, u32), from: int, t: int)
    requires
        0 <= from <= t < visible.len(),
        key_of(entries[visible[t] as int]) == key,
    ensures
        from <= first_with_key(entries, visible, key, from) <= t,
        key_of(entries[visible[first_with_key(entries, visible, key, from)] as int]) == key,
    decreases t - from,
{
    if key_of(entries[visible[from] as int]) != key {
        lemma_first_with_key(entries, visible, key, from + 1, t);
    }
}

/// No key press changes the entries: filtering and moving never drop data,
/// and only a rescan replaces them.
pub proof fn lemma_keys_keep_entries(v: AppView, key: Key, w: AppView, a: ActionView)
    requires
        after_key(v, key, w, a),
    ensures
        w.entries == v.entries,
{
}

/// Only Enter (SIGTERM) and Shift-K (SIGKILL), pressed outside the filter
/// and without Control, ask for a signal; so a stray lowercase `k`, which
/// moves up, can never kill anything.
pub proof fn lemma_only_enter_and_shift_k_kill(v: AppView, key: Key, w: AppView, a: ActionView)
    requires
        after_key(v, key, w, a),
        a is Signal,
    ensures
        key.kind == KeyKind::Press,
        !key.ctrl,
        !v.searching,
        key.code == KeyCode::Enter ==> a->signal == Signal::Term,
        key.code == KeyCode::Char('K') ==> a->signal == Signal::Kill,
        key.code == KeyCode::Enter || key.code == KeyCode::Char('K'),
{
}

/// Control-C quits from any mode, searching included.
pub proof fn lemma_ctrl_c_quits(v: AppView, w: AppView, a: ActionView)
    requires
        after_key(v, Key { code: KeyCode::Char('c'), ctrl: true, kind: KeyKind::Press }, w, a),
    ensures
        w.quit,
        a == ActionView::Nothing,
{
}

/// Esc while searching clears the filter, and then every entry is shown in
/// scan order.
pub proof fn lemma_esc_clears_filter(v: AppView, w: AppView, a: ActionView)
    requires
        v.searching,
        after_key(v, Key { code: KeyCode::Esc, ctrl: false, kind: KeyKind::Press }, w, a),
    ensures
        !w.searching,
        w.query.len() == 0,
        w.visible.len() == w.entries.len(),
        forall|t: int| 0 <= t < w.visible.len() ==> w.visible[t] == t,
{
    lemma_empty_query_shows_all(w.entries, w.query, w.visible);
}

/// Whether the filter can score `e` (see `App::new` and `App::refresh`).
pub fn entry_fits_filter(e: &PortEntry) -> (b: bool)
    ensures
        b == fits_filter(e@),
{
    let h = e.haystack();
    let n = crate::text::chars_of(h.as_str()).len();
    n <= (i32::MAX as usize) / 10
}

/// A key press clears the last footer message; the only message a key
/// leaves is the one saying that there is nothing to signal.
pub proof fn lemma_press_clears_status(v: AppView, key: Key, w: AppView, a: ActionView)
    requires
        after_key(v, key, w, a),
        key.kind == KeyKind::Press,
    ensures
        w.status is None || w.status == Some(StatusView::Error("Nothing selected."@)),
{
}

/// Releases and repeats change nothing and ask for nothing.
pub proof fn lemma_only_presses_count(v: AppView, key: Key, w: AppView, a: ActionView)
    requires
        after_key(v, key, w, a),
        key.kind != KeyKind::Press,
    ensures
        w == v,
        a == ActionView::Nothing,
{
}

/// While searching, Backspace removes exactly the last character of the
/// query (an empty query stays empty), keeps searching, and re-ranks the rows
/// against the shortened query.
pub proof fn lemma_backspace_drops_last_char(v: AppView, w: AppView, a: ActionView)
    requires
        v.searching,
        after_key(v, Key { code: KeyCode::Backspace, ctrl: false, kind: KeyKind::Press }, w, a),
    ensures
        v.query.len() > 0 ==> w.query.len() + 1 == v.query.len() && forall|i: int|
            0 <= i < w.query.len() ==> #[trigger] w.query[i] == v.query[i],
        v.query.len() == 0 ==> w.query.len() == 0,
        w.searching,
        w.entries == v.entries,
        ranked(w.entries, w.query, w.visible),
        a == ActionView::Nothing,
{
}

/// While searching, typing a character and then Backspace gives back the
/// query as it was.
pub proof fn lemma_backspace_undoes_typing(
    v: AppView,
    c: char,
    w1: AppView,
    a1: ActionView,
    w2: AppView,
    a2: ActionView,
)
    requires
        v.searching,
        after_key(v, Key { code: KeyCode::Char(c), ctrl: false, kind: KeyKind::Press }, w1, a1),
        after_key(w1, Key { code: KeyCode::Backspace, ctrl: false, kind: KeyKind::Press }, w2, a2),
    ensures
        w2.query == v.query,
        w2.searching,
        w2.entries == v.entries,
        ranked(w2.entries, v.query, w2.visible),
{
    assert(w1.query == v.query.push(c));
    assert(w1.query.drop_last() =~= v.query);
}

/// A signal is only ever asked for the process on the highlighted row: the
/// entry `selected_entry` gives, which is one of the rows the filter shows.
pub proof fn lemma_signal_targets_highlighted_row(app: &App, key: Key, w: AppView, a: ActionView)
    requires
        app.wf(),
        after_key(app@, key, w, a),
        a is Signal,
    ensures
        0 <= app@.selected < app@.visible.len(),
        app@.visible[app@.selected] < app@.entries.len(),
        entry_score(app@.entries, app@.query, app@.visible[app@.selected] as int) is Some,
        ({
            let e = app@.entries[app@.visible[app@.selected] as int];
            a matches ActionView::Signal { pid, name, port, .. } && pid == e.pid && name == e.name && port == e.port
        }),
        key.code == KeyCode::Enter ==> a matches ActionView::Signal { signal: Signal::Term, .. },
        key.code != KeyCode::Enter ==> a matches ActionView::Signal { signal: Signal::Kill, .. },
{
    app.lemma_invariant();
    let v = app@;
    if v.visible.len() > 0 {
        let _ = v.visible[v.selected];
    }
}

} // verus!
