//! Direct mode: `portkill 8080`. Inspect, confirm, terminate.
//!
//! The program reads the sockets, prints, asks and signals; this module
//! decides what to do, and writes every line that it prints.

use vstd::prelude::*;

use crate::kill::Signal;
use crate::ports::{PortEntry, PortEntryView};
use crate::process::{human_bytes, human_text, trimmed};
use crate::text::{chars_of, decimal, push_char, push_decimal};
use vstd::utf8::encode_utf8;

verus! {

broadcast use vstd::string::group_string_axioms;

/// Exit code used when the port turned out to be free.
pub const EXIT_NOT_FOUND: i32 = 1;

/// Exit code used when the user declined at the confirmation prompt.
pub const EXIT_CANCELLED: i32 = 2;

/// Exit code used when a process was found but could not be signalled.
pub const EXIT_KILL_FAILED: i32 = 3;

/// What to do about the processes found on the port.
#[derive(Clone, Copy, Debug, PartialEq, Eq, Structural)]
pub enum Plan {
    /// Nothing is listening: report it and exit with `EXIT_NOT_FOUND`.
    NothingThere,
    /// Ask first, then send the signal.
    Ask(Signal),
    /// Send the signal without asking.
    Send(Signal),
}

/// The plan for `found` processes: `--force` sends SIGKILL without asking,
/// `--yes` sends SIGTERM without asking, and otherwise the user is asked
/// before SIGTERM.
pub fn plan(found: usize, force: bool, assume_yes: bool) -> (p: Plan)
    ensures
        found == 0 ==> p == Plan::NothingThere,
        found > 0 && force ==> p == Plan::Send(Signal::Kill),
        found > 0 && !force && assume_yes ==> p == Plan::Send(Signal::Term),
        found > 0 && !force && !assume_yes ==> p == Plan::Ask(Signal::Term),
{
    if found == 0 {
        return Plan::NothingThere;
    }
    let signal = if force {
        Signal::Kill
    } else {
        Signal::Term
    };
    let needs_confirmation = !force && !assume_yes;
    if needs_confirmation {
        Plan::Ask(signal)
    } else {
        Plan::Send(signal)
    }
}

/// The exit code once every process was sent the signal: anything short of
/// "every process signalled" is a failure to a script, since the port may
/// well still be occupied.
pub fn exit_code(any_failed: bool) -> (code: i32)
    ensures
        any_failed ==> code == EXIT_KILL_FAILED,
        !any_failed ==> code == 0,
{
    if any_failed {
        EXIT_KILL_FAILED
    } else {
        0
    }
}

/// Whether an answer at the prompt means yes: `y`, `Y`, `yes` or `Yes`,
/// around white space.
pub open spec fn affirmative(answer: Seq<char>) -> bool {
    let a = trimmed(answer);
    a == seq!['y'] || a == seq!['Y'] || a == seq!['y', 'e', 's'] || a == seq!['Y', 'e', 's']
}

/// Only a yes confirms: an answer counts as yes exactly when, around white
/// space, it is a `y` or `Y`, alone or followed by `es`. So `n`, `N`, `no`, `x`
/// or an empty answer never does.
pub proof fn lemma_only_yes_confirms(answer: Seq<char>)
    ensures
        ({
            let t = trimmed(answer);
            affirmative(answer) <==> (t.len() > 0 && (t[0] == 'y' || t[0] == 'Y') && (t.len() == 1 || (t.len() == 3
                && t[1] == 'e' && t[2] == 's')))
        }),
{
    let t = trimmed(answer);
    if t.len() == 1 && (t[0] == 'y' || t[0] == 'Y') {
        if t[0] == 'y' {
            assert(t =~= seq!['y']);
        } else {
            assert(t =~= seq!['Y']);
        }
    }
    if t.len() == 3 && (t[0] == 'y' || t[0] == 'Y') && t[1] == 'e' && t[2] == 's' {
        if t[0] == 'y' {
            assert(t =~= seq!['y', 'e', 's']);
        } else {
            assert(t =~= seq!['Y', 'e', 's']);
        }
    }
}

/// Whether an answer at the prompt means yes.
pub fn is_yes(answer: &str) -> (b: bool)
    ensures
        b == affirmative(answer@),
{
    let v = chars_of(answer);
    let t = crate::process::trim_text(&v);
    if t.len() == 1 {
        proof {
            if t@[0] == 'y' {
                assert(t@ =~= seq!['y']);
            }
            if t@[0] == 'Y' {
                assert(t@ =~= seq!['Y']);
            }
        }
        t[0] == 'y' || t[0] == 'Y'
    } else if t.len() == 3 {
        proof {
            if t@[1] == 'e' && t@[2] == 's' {
                if t@[0] == 'y' {
                    assert(t@ =~= seq!['y', 'e', 's']);
                }
                if t@[0] == 'Y' {
                    assert(t@ =~= seq!['Y', 'e', 's']);
                }
            }
        }
        (t[0] == 'y' || t[0] == 'Y') && t[1] == 'e' && t[2] == 's'
    } else {
        proof {
            assert(t@.len() != 1 && t@.len() != 3);
        }
        false
    }
}

/// What std's `str::len` returns for text `s`: the length of its UTF-8
/// encoding.
pub open spec fn byte_len(s: Seq<char>) -> nat {
    (encode_utf8(s).len() as usize) as nat
}

/// `s` followed by enough spaces to make it `width` characters long, as
/// `{:<width$}` formats it; longer text is left as it is.
pub open spec fn padded(s: Seq<char>, width: nat) -> Seq<char> {
    if s.len() >= width {
        s
    } else {
        s + Seq::new((width - s.len()) as nat, |i: int| ' ')
    }
}

/// The widest byte length among the first `n` entries' names, or `w` if
/// that is wider.
pub open spec fn widest_name(entries: Seq<PortEntryView>, n: int, w: nat) -> nat
    decreases n,
{
    if n <= 0 {
        w
    } else {
        let b = byte_len(entries[n - 1].name);
        let rest = widest_name(entries, n - 1, w);
        if b > rest {
            b
        } else {
            rest
        }
    }
}

/// The widest byte length among the first `n` entries' users, or `w` if
/// that is wider.
pub open spec fn widest_user(entries: Seq<PortEntryView>, n: int, w: nat) -> nat
    decreases n,
{
    if n <= 0 {
        w
    } else {
        let b = byte_len(entries[n - 1].user);
        let rest = widest_user(entries, n - 1, w);
        if b > rest {
            b
        } else {
            rest
        }
    }
}

/// The table's header line, for the given widths of the PROCESS and USER columns.
pub open spec fn header_line(name_width: nat, user_width: nat) -> Seq<char> {
    padded("PORT"@, 6) + " "@ + padded("PROTO"@, 5) + " "@ + padded("PID"@, 7) + " "@ + padded(
        "PROCESS"@,
        name_width,
    ) + " "@ + padded("USER"@, user_width) + " MEMORY"@
}

/// The table's line for one entry.
pub open spec fn row_line(e: PortEntryView, name_width: nat, user_width: nat) -> Seq<char> {
    padded(decimal(e.port as nat), 6) + " "@ + padded(e.proto.label(), 5) + " "@ + padded(
        decimal(e.pid as nat),
        7,
    ) + " "@ + padded(e.name, name_width) + " "@ + padded(e.user, user_width) + " "@ + human_text(
        e.memory as nat,
    )
}

/// Appends `s` padded with spaces to `width` characters.
fn push_padded(out: &mut String, s: &str, width: usize)
    ensures
        final(out)@ == old(out)@ + padded(s@, width as nat),
{
    let v = chars_of(s);
    out.append(s);
    let mut n = v.len();
    let ghost before = out@;
    while n < width
        invariant
            v@ == s@,
            v@.len() <= n <= width || (n == v@.len() && n >= width),
            out@ == before + Seq::new((n - v@.len()) as nat, |i: int| ' '),
        decreases width - n,
    {
        push_char(out, ' ');
        assert(out@ =~= before + Seq::new((n + 1 - v@.len()) as nat, |i: int| ' '));
        n = n + 1;
    }
    proof {
        if v@.len() >= width {
            assert(Seq::new(0, |i: int| ' ') =~= Seq::<char>::empty());
            assert(out@ =~= before);
        }
    }
}

/// The table of `entries` as `print_table` prints it: a header, then one
/// line per entry, with the PROCESS and USER columns as wide as their
/// widest value in bytes (at least as wide as their headings).
pub fn table_lines(entries: &Vec<PortEntry>) -> (lines: Vec<String>)
    ensures
        lines@.len() == entries@.len() + 1,
        lines@[0]@ == header_line(
            widest_name(entries@.map_values(|e: PortEntry| e@), entries@.len() as int, 7),
            widest_user(entries@.map_values(|e: PortEntry| e@), entries@.len() as int, 4),
        ),
        forall|i: int|
            0 <= i < entries@.len() ==> (#[trigger] lines@[i + 1])@ == row_line(
                entries@[i]@,
                widest_name(entries@.map_values(|e: PortEntry| e@), entries@.len() as int, 7),
                widest_user(entries@.map_values(|e: PortEntry| e@), entries@.len() as int, 4),
            ),
{
    let ghost ev = entries@.map_values(|e: PortEntry| e@);
    let mut name_width: usize = 7;
    let mut user_width: usize = 4;
    let mut k: usize = 0;
    while k < entries.len()
        invariant
            ev == entries@.map_values(|e: PortEntry| e@),
            k <= entries@.len(),
            name_width == widest_name(ev, k as int, 7),
            user_width == widest_user(ev, k as int, 4),
        decreases entries@.len() - k,
    {
        let nb = entries[k].name.as_str().len();
        let ub = entries[k].user.as_str().len();
        assert(ev[k as int] == entries@[k as int]@);
        if nb > name_width {
            name_width = nb;
        }
        if ub > user_width {
            user_width = ub;
        }
        k = k + 1;
    }
    let mut lines: Vec<String> = Vec::new();
    let mut header = String::new();
    push_padded(&mut header, "PORT", 6);
    header.append(" ");
    push_padded(&mut header, "PROTO", 5);
    header.append(" ");
    push_padded(&mut header, "PID", 7);
    header.append(" ");
    push_padded(&mut header, "PROCESS", name_width);
    header.append(" ");
    push_padded(&mut header, "USER", user_width);
    header.append(" MEMORY");
    assert(header@ =~= header_line(name_width as nat, user_width as nat));
    lines.push(header);
    let mut i: usize = 0;
    while i < entries.len()
        invariant
            ev == entries@.map_values(|e: PortEntry| e@),
            name_width == widest_name(ev, entries@.len() as int, 7),
            user_width == widest_user(ev, entries@.len() as int, 4),
            i <= entries@.len(),
            lines@.len() == i + 1,
            lines@[0]@ == header_line(name_width as nat, user_width as nat),
            forall|j: int|
                0 <= j < i ==> (#[trigger] lines@[j + 1])@ == row_line(entries@[j]@, name_width as nat, user_width as nat),
        decreases entries@.len() - i,
    {
        let e = &entries[i];
        let mut line = String::new();
        let port = crate::text::decimal_string(e.port as u64);
        push_padded(&mut line, port.as_str(), 6);
        line.append(" ");
        let proto = e.proto.to_string();
        push_padded(&mut line, proto.as_str(), 5);
        line.append(" ");
        let pid = crate::text::decimal_string(e.pid as u64);
        push_padded(&mut line, pid.as_str(), 7);
        line.append(" ");
        push_padded(&mut line, e.name.as_str(), name_width);
        line.append(" ");
        push_padded(&mut line, e.user.as_str(), user_width);
        line.append(" ");
        let mem = human_bytes(e.memory);
        line.append(mem.as_str());
        assert(line@ =~= row_line(entries@[i as int]@, name_width as nat, user_width as nat));
        lines.push(line);
        i = i + 1;
    }
    lines
}

/// Reported when nothing holds the port.
pub fn not_found_message(port: u16) -> (s: String)
    ensures
        s@ == "Nothing is listening on port "@ + decimal(port as nat) + "."@,
{
    let mut s = "Nothing is listening on port ".to_string();
    push_decimal(&mut s, port as u64);
    s.append(".");
    s
}

/// Printed for each process that was signalled.
pub fn sent_message(signal: Signal, entry: &PortEntry) -> (s: String)
    ensures
        s@ == "Sent "@ + signal.label() + " to "@ + entry.name@ + " (PID "@ + decimal(entry.pid as nat) + ")."@,
{
    let mut s = "Sent ".to_string();
    let sig = signal.to_string();
    s.append(sig.as_str());
    s.append(" to ");
    s.append(entry.name.as_str());
    s.append(" (PID ");
    push_decimal(&mut s, entry.pid as u64);
    s.append(").");
    s
}

/// Who the confirmation question is about: the one process by name and
/// PID, or how many processes there are.
pub open spec fn prompt_target(entries: Seq<PortEntryView>) -> Seq<char> {
    if entries.len() == 1 {
        entries[0].name + " (PID "@ + decimal(entries[0].pid as nat) + ")"@
    } else {
        decimal(entries.len()) + " processes"@
    }
}

/// The confirmation question, asked before pulling the trigger.
pub fn confirm_prompt(entries: &Vec<PortEntry>, signal: Signal) -> (s: String)
    ensures
        s@ == "\nSend "@ + signal.label() + " to "@ + prompt_target(entries@.map_values(|e: PortEntry| e@))
            + "? [y/N] "@,
{
    let ghost ev = entries@.map_values(|e: PortEntry| e@);
    let mut s = "\nSend ".to_string();
    let sig = signal.to_string();
    s.append(sig.as_str());
    s.append(" to ");
    if entries.len() == 1 {
        assert(ev[0] == entries@[0]@);
        s.append(entries[0].name.as_str());
        s.append(" (PID ");
        push_decimal(&mut s, entries[0].pid as u64);
        s.append(")");
    } else {
        push_decimal(&mut s, entries.len() as u64);
        s.append(" processes");
    }
    s.append("? [y/N] ");
    s
}

} // verus!
