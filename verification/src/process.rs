//! Per-process details, and how byte counts are shown.

use vstd::prelude::*;
use vstd::utf8::{decode_utf8, valid_utf8};

use crate::text::{chars_equal, chars_of, copy_range, decimal, lemma_decimal_digits, push_char, push_decimal, string_of};

verus! {

broadcast use vstd::string::group_string_axioms;

/// What can be learned about a process that holds a socket.
pub struct ProcInfo {
    pub name: String,
    pub uid: u32,
    /// Resident set size, in bytes.
    pub rss: u64,
}

/// `n / d` rounded to the nearest integer, ties to the even one.
pub open spec fn round_half_even(n: nat, d: nat) -> nat
    recommends
        d > 0,
{
    let q = n / d;
    let r = n % d;
    if r > d - r || (r == d - r && q % 2 == 1) {
        q + 1
    } else {
        q
    }
}

/// Two to the power `e`.
pub open spec fn pow2(e: nat) -> nat
    decreases e,
{
    if e == 0 {
        1
    } else {
        2 * pow2((e - 1) as nat)
    }
}

/// 1024 to the power `u`: the size of unit `u` (B, K, M, G, T).
pub open spec fn unit_size(u: nat) -> nat
    decreases u,
{
    if u == 0 {
        1
    } else {
        1024 * unit_size((u - 1) as nat)
    }
}

/// How many low bits a `u64` loses on conversion to `f64`, whose
/// significand holds 53 bits.
pub open spec fn lost_bits(b: nat) -> nat
    decreases b,
{
    if b < pow2(53) || b == 0 {
        0
    } else {
        1 + lost_bits(b / 2)
    }
}

/// The value of `b as f64`: `b` itself below 2^53, and above that `b`
/// rounded to 53 significant bits, ties to even.
pub open spec fn f64_value(b: nat) -> nat {
    round_half_even(b, pow2(lost_bits(b))) * pow2(lost_bits(b))
}

/// The largest unit, up to T, that is no larger than `b`.
pub open spec fn unit_of(b: nat) -> nat {
    if b < unit_size(1) {
        0
    } else if b < unit_size(2) {
        1
    } else if b < unit_size(3) {
        2
    } else if b < unit_size(4) {
        3
    } else {
        4
    }
}

/// The letter of unit `u`.
pub open spec fn unit_letter(u: nat) -> char {
    if u == 0 {
        'B'
    } else if u == 1 {
        'K'
    } else if u == 2 {
        'M'
    } else if u == 3 {
        'G'
    } else {
        'T'
    }
}

/// A byte count as shown in the MEMORY column: whole bytes below 1 K; else
/// the count in the largest unit up to T, with one decimal below ten and
/// none from ten on, rounded half to even as `f64` formatting does.
pub open spec fn human_text(b: nat) -> Seq<char> {
    let u = unit_of(b);
    if u == 0 {
        decimal(b) + seq![' ', 'B']
    } else {
        let f = f64_value(b);
        let d = unit_size(u);
        if f < 10 * d {
            let tenths = round_half_even(10 * f, d);
            decimal(tenths / 10) + seq!['.'] + decimal(tenths % 10) + seq![' ', unit_letter(u)]
        } else {
            decimal(round_half_even(f, d)) + seq![' ', unit_letter(u)]
        }
    }
}

/// The shown text of a byte count below 1024 T: at most six characters
/// (the width of the MEMORY column), ending in a space and the unit's letter,
/// with a decimal point exactly when the count is below ten of its unit.
pub proof fn lemma_human_text_shape(b: nat)
    requires
        b < 1024 * unit_size(4),
    ensures
        human_text(b).len() <= 6,
        human_text(b).last() == unit_letter(unit_of(b)),
        human_text(b)[human_text(b).len() - 2] == ' ',
        human_text(b).contains('.') <==> (unit_of(b) >= 1 && b < 10 * unit_size(unit_of(b))),
        unit_of(b) == 0 ==> human_text(b) == decimal(b) + seq![' ', 'B'],
{
    assert(unit_size(1) == 1024 && unit_size(2) == 1048576 && unit_size(3) == 1073741824 && unit_size(4)
        == 1099511627776) by {
        reveal_with_fuel(unit_size, 5);
    }
    assert(pow2(53) == 0x20000000000000) by {
        reveal_with_fuel(pow2, 54);
    }
    assert(lost_bits(b) == 0);
    assert(pow2(0) == 1);
    assert(f64_value(b) == b);
    let u = unit_of(b);
    let t = human_text(b);
    if u == 0 {
        lemma_decimal_digits(b);
        assert(!t.contains('.')) by {
            if t.contains('.') {
                let i = choose|i: int| 0 <= i < t.len() && t[i] == '.';
                if i < decimal(b).len() {
                    assert(t[i] == decimal(b)[i]);
                }
            }
        }
    } else {
        let d = unit_size(u);
        assert(b < 1024 * d);
        if b < 10 * d {
            let tenths = round_half_even(10 * b, d);
            assert(tenths <= 100) by (nonlinear_arith)
                requires
                    tenths == round_half_even(10 * b, d),
                    10 * b < 100 * d,
                    d > 0,
            ;
            lemma_decimal_digits(tenths / 10);
            lemma_decimal_digits(tenths % 10);
            let w = decimal(tenths / 10).len();
            assert(t[w as int] == '.');
        } else {
            let whole = round_half_even(b, d);
            assert(b / d < 1024) by (nonlinear_arith)
                requires
                    b < 1024 * d,
                    d > 0,
            ;
            assert(whole <= b / d + 1);
            lemma_decimal_digits(whole);
            assert(!t.contains('.')) by {
                if t.contains('.') {
                    let i = choose|i: int| 0 <= i < t.len() && t[i] == '.';
                    if i < decimal(whole).len() {
                        assert(t[i] == decimal(whole)[i]);
                    }
                }
            }
        }
    }
}

fn round_half_even_exec(n: u128, d: u128) -> (r: u128)
    requires
        d > 0,
        n < u128::MAX,
    ensures
        r == round_half_even(n as nat, d as nat),
{
    let q = n / d;
    let r = n % d;
    assert(q <= n) by (nonlinear_arith)
        requires
            q == n / d,
            d > 0,
    ;
    if r > d - r || (r == d - r && q % 2 == 1) {
        q + 1
    } else {
        q
    }
}

proof fn lemma_halve(t: nat, p: nat, b: nat)
    requires
        t * p <= b,
        b < t * p + p,
        p >= 1,
    ensures
        (t / 2) * (p * 2) <= b,
        b < (t / 2) * (p * 2) + p * 2,
{
    assert((t / 2) * (p * 2) <= t * p) by (nonlinear_arith)
        requires
            p >= 1,
    ;
    assert(t * p + p <= (t / 2) * (p * 2) + p * 2) by (nonlinear_arith)
        requires
            p >= 1,
    ;
}

proof fn lemma_rounded_bound(b: nat, p: nat, t: nat, r: nat)
    requires
        p >= 1,
        t == b / p,
        r <= t + 1,
        p <= b + 1,
    ensures
        r * p <= 2 * b + 1,
{
    assert(t * p <= b) by (nonlinear_arith)
        requires
            t == b / p,
            p >= 1,
    ;
    assert(r * p <= t * p + p) by (nonlinear_arith)
        requires
            r <= t + 1,
            p >= 1,
    ;
}

/// `b as f64`, as an exact integer.
fn f64_of(b: u64) -> (f: u128)
    ensures
        f == f64_value(b as nat),
        f <= 2 * b + 1,
{
    let mut t: u64 = b;
    let mut p: u128 = 1;
    let ghost mut e: nat = 0;
    assert(pow2(53) == 0x20000000000000) by {
        reveal_with_fuel(pow2, 54);
    }
    while t >= 0x20000000000000u64
        invariant
            lost_bits(b as nat) == e + lost_bits(t as nat),
            p == pow2(e),
            p >= 1,
            t * p <= b,
            b < t * p + p,
            p <= b + 1,
            pow2(53) == 0x20000000000000,
        decreases t,
    {
        assert(lost_bits(t as nat) == 1 + lost_bits((t / 2) as nat));
        proof {
            lemma_halve(t as nat, p as nat, b as nat);
            assert(p * 2 <= (t / 2) * (p * 2)) by (nonlinear_arith)
                requires
                    t >= 2,
                    p >= 1,
            ;
            e = e + 1;
        }
        t = t / 2;
        p = p * 2;
    }
    assert(lost_bits(t as nat) == 0);
    assert(t as int == (b as int) / (p as int)) by (nonlinear_arith)
        requires
            t * p <= b,
            b < t * p + p,
            p >= 1,
    ;
    let r = round_half_even_exec(b as u128, p);
    proof {
        lemma_rounded_bound(b as nat, p as nat, t as nat, r as nat);
    }
    r * p
}

fn unit_letter_exec(u: usize) -> (c: char)
    ensures
        c == unit_letter(u as nat),
{
    if u == 0 {
        'B'
    } else if u == 1 {
        'K'
    } else if u == 2 {
        'M'
    } else if u == 3 {
        'G'
    } else {
        'T'
    }
}

/// Format a byte count for a fixed-width table column.
pub fn human_bytes(bytes: u64) -> (s: String)
    ensures
        s@ == human_text(bytes as nat),
{
    assert(unit_size(1) == 1024 && unit_size(2) == 1048576 && unit_size(3) == 1073741824 && unit_size(4)
        == 1099511627776) by {
        reveal_with_fuel(unit_size, 5);
    }
    let b = bytes as u128;
    let (u, d): (usize, u128) = if b < 1024 {
        (0, 1)
    } else if b < 1048576 {
        (1, 1024)
    } else if b < 1073741824 {
        (2, 1048576)
    } else if b < 1099511627776 {
        (3, 1073741824)
    } else {
        (4, 1099511627776)
    };
    assert(u == unit_of(bytes as nat) && d == unit_size(u as nat));
    let mut s = String::new();
    if u == 0 {
        push_decimal(&mut s, bytes);
        push_char(&mut s, ' ');
        push_char(&mut s, 'B');
        return s;
    }
    let f = f64_of(bytes);
    if f < 10 * d {
        let tenths = round_half_even_exec(10 * f, d);
        assert(tenths <= 100) by (nonlinear_arith)
            requires
                tenths == round_half_even((10 * f) as nat, d as nat),
                10 * f < 100 * d,
                d > 0,
        ;
        push_decimal(&mut s, (tenths / 10) as u64);
        push_char(&mut s, '.');
        push_decimal(&mut s, (tenths % 10) as u64);
    } else {
        let whole = round_half_even_exec(f, d);
        assert(whole <= f / d + 1);
        assert(f / d <= f / 1024) by (nonlinear_arith)
            requires
                d >= 1024,
        ;
        push_decimal(&mut s, whole as u64);
    }
    push_char(&mut s, ' ');
    push_char(&mut s, unit_letter_exec(u));
    s
}

/// Unicode `White_Space`, which is what std's `char::is_whitespace` tests.
pub open spec fn is_white_space(c: char) -> bool {
    let u = c as u32;
    ||| 0x9 <= u <= 0xD
    ||| u == 0x20
    ||| u == 0x85
    ||| u == 0xA0
    ||| u == 0x1680
    ||| 0x2000 <= u <= 0x200A
    ||| u == 0x2028
    ||| u == 0x2029
    ||| u == 0x202F
    ||| u == 0x205F
    ||| u == 0x3000
}

/// `s` without its leading white space.
pub open spec fn trim_start(s: Seq<char>) -> Seq<char>
    decreases s.len(),
{
    if s.len() > 0 && is_white_space(s[0]) {
        trim_start(s.drop_first())
    } else {
        s
    }
}

/// `s` without its trailing white space.
pub open spec fn trim_end(s: Seq<char>) -> Seq<char>
    decreases s.len(),
{
    if s.len() > 0 && is_white_space(s.last()) {
        trim_end(s.drop_last())
    } else {
        s
    }
}

/// `s` without leading or trailing white space (std's `str::trim`).
pub open spec fn trimmed(s: Seq<char>) -> Seq<char> {
    trim_end(trim_start(s))
}

/// The run of characters up to the first white space.
pub open spec fn word_prefix(s: Seq<char>) -> Seq<char>
    decreases s.len(),
{
    if s.len() == 0 || is_white_space(s[0]) {
        seq![]
    } else {
        seq![s[0]] + word_prefix(s.drop_first())
    }
}

/// The first white-space-separated word of `s`, if any
/// (`str::split_whitespace().next()`).
pub open spec fn first_word(s: Seq<char>) -> Option<Seq<char>> {
    let t = trim_start(s);
    if t.len() == 0 {
        None
    } else {
        Some(word_prefix(t))
    }
}

/// The character is an ASCII decimal digit.
pub open spec fn is_digit(c: char) -> bool {
    '0' <= c <= '9'
}

/// The number that a string of decimal digits spells.
pub open spec fn digits_value(d: Seq<char>) -> nat
    decreases d.len(),
{
    if d.len() == 0 {
        0
    } else {
        digits_value(d.drop_last()) * 10 + ((d.last() as u32) - 48) as nat
    }
}

/// `s` without the one `+` sign it may start with.
pub open spec fn unsigned_digits(s: Seq<char>) -> Seq<char> {
    if s.len() > 0 && s[0] == '+' {
        s.drop_first()
    } else {
        s
    }
}

/// Every character of `d` is a decimal digit.
pub open spec fn all_digits(d: Seq<char>) -> bool {
    forall|i: int| 0 <= i < d.len() ==> is_digit(#[trigger] d[i])
}

/// What std's `from_str` gives for an unsigned integer type whose largest
/// value is `max`: an optional `+`, then at least one decimal digit and
/// nothing else, spelling a number no larger than `max`.
pub open spec fn parse_unsigned(s: Seq<char>, max: nat) -> Option<nat> {
    let digits = unsigned_digits(s);
    if digits.len() == 0 || !all_digits(digits) {
        None
    } else if digits_value(digits) <= max {
        Some(digits_value(digits))
    } else {
        None
    }
}

/// Index of the first line feed at or after `from`, or the end of `s`.
pub open spec fn line_end(s: Seq<char>, from: int) -> int
    decreases s.len() - from,
{
    if from < 0 || from >= s.len() {
        s.len() as int
    } else if s[from] == '\n' {
        from
    } else {
        line_end(s, from + 1)
    }
}

pub proof fn lemma_line_end(s: Seq<char>, from: int)
    requires
        0 <= from <= s.len(),
    ensures
        from <= line_end(s, from) <= s.len(),
        line_end(s, from) < s.len() ==> s[line_end(s, from)] == '\n',
        forall|k: int| from <= k < line_end(s, from) ==> s[k] != '\n',
    decreases s.len() - from,
{
    if from < s.len() && s[from] != '\n' {
        lemma_line_end(s, from + 1);
    }
}

/// The lines of `s` from `from` on, as std's `str::lines` yields them:
/// split at line feeds, each line that ended in a line feed losing one
/// trailing carriage return, with no empty line after a final line feed.
pub open spec fn lines_from(s: Seq<char>, from: int) -> Seq<Seq<char>>
    decreases s.len() + 1 - from,
{
    if from < 0 || from >= s.len() {
        seq![]
    } else {
        proof {
            lemma_line_end(s, from);
        }
        let e = line_end(s, from);
        let raw = s.subrange(from, e);
        let line = if e < s.len() && raw.len() > 0 && raw.last() == '\r' {
            raw.drop_last()
        } else {
            raw
        };
        seq![line] + lines_from(s, e + 1)
    }
}

/// Index of the first colon in `s`, or its length.
pub open spec fn colon_at(s: Seq<char>, from: int) -> int
    decreases s.len() - from,
{
    if from < 0 || from >= s.len() {
        s.len() as int
    } else if s[from] == ':' {
        from
    } else {
        colon_at(s, from + 1)
    }
}

/// What reading `/proc/<pid>/status` has found so far.
pub struct StatusFields {
    pub name: Option<Seq<char>>,
    pub uid: Option<u32>,
    /// Resident memory in bytes, as the `u64` that holds it.
    pub rss: u64,
    /// The resident memory in bytes did not fit a `u64`.
    pub overflow: bool,
}

/// The fields after reading one `key: value` line: `Name` is the trimmed
/// value, `Uid` the first number of the value (the real uid), and `VmRSS` the
/// first number of the value, in kB, as bytes (zero if it is not a number;
/// where the bytes do not fit a `u64`, `overflow` is set and `rss` is zero).
pub open spec fn read_line(st: StatusFields, line: Seq<char>) -> StatusFields {
    let c = colon_at(line, 0);
    if c >= line.len() {
        st
    } else {
        let key = line.subrange(0, c);
        let value = trimmed(line.subrange(c + 1, line.len() as int));
        if key == "Name"@ {
            StatusFields { name: Some(value), ..st }
        } else if key == "Uid"@ {
            StatusFields {
                uid: match first_word(value) {
                    Some(w) => match parse_unsigned(w, u32::MAX as nat) {
                        Some(n) => Some(n as u32),
                        None => None,
                    },
                    None => None,
                },
                ..st
            }
        } else if key == "VmRSS"@ {
            let kb = match first_word(value) {
                Some(w) => match parse_unsigned(w, u64::MAX as nat) {
                    Some(n) => n,
                    None => 0,
                },
                None => 0,
            };
            if kb * 1024 > u64::MAX {
                StatusFields { rss: 0, overflow: true, ..st }
            } else {
                StatusFields { rss: (kb * 1024) as u64, ..st }
            }
        } else {
            st
        }
    }
}

/// Name, uid and a non-zero memory size have all been found.
pub open spec fn complete(st: StatusFields) -> bool {
    st.name is Some && st.uid is Some && st.rss != 0
}

/// The fields after reading `lines` from line `i` on, stopping early once
/// they are complete.
pub open spec fn read_lines(lines: Seq<Seq<char>>, i: int, st: StatusFields) -> StatusFields
    decreases lines.len() - i,
{
    if i < 0 || i >= lines.len() {
        st
    } else {
        let next = read_line(st, lines[i]);
        if complete(next) {
            next
        } else {
            read_lines(lines, i + 1, next)
        }
    }
}

/// The fields of a `/proc/<pid>/status` text.
pub open spec fn status_fields(text: Seq<char>) -> StatusFields {
    read_lines(lines_from(text, 0), 0, StatusFields { name: None, uid: None, rss: 0, overflow: false })
}

/// `line` is a `VmRSS: <n> kB` line (its key, before the first colon, is
/// exactly `VmRSS`) that gives the resident memory `rss`: 1024 times the first
/// number of its value, or zero.
pub open spec fn gives_memory(line: Seq<char>, rss: u64) -> bool {
    let c = colon_at(line, 0);
    &&& c < line.len()
    &&& line.subrange(0, c) == "VmRSS"@
    &&& rss == 0 || (first_word(trimmed(line.subrange(c + 1, line.len() as int))) matches Some(w) && (parse_unsigned(
        w,
        u64::MAX as nat,
    ) matches Some(n) && rss == n * 1024))
}

/// Only a line whose key is exactly `VmRSS` touches the memory: any other
/// line, `VmPeak`, `VmSize` or `VmHWM` among them, leaves it as it was; a
/// `VmRSS` line whose first number fits sets it to 1024 times that number.
pub proof fn lemma_only_vmrss_sets_memory(st: StatusFields, line: Seq<char>)
    ensures
        (colon_at(line, 0) >= line.len() || line.subrange(0, colon_at(line, 0)) != "VmRSS"@) ==> read_line(
            st,
            line,
        ).rss == st.rss && read_line(st, line).overflow == st.overflow,
        colon_at(line, 0) < line.len() && line.subrange(0, colon_at(line, 0)) == "VmRSS"@ ==> gives_memory(
            line,
            read_line(st, line).rss,
        ),
        ({
            let c = colon_at(line, 0);
            c < line.len() && line.subrange(0, c) == "VmRSS"@ ==> match first_word(
                trimmed(line.subrange(c + 1, line.len() as int)),
            ) {
                Some(w) => match parse_unsigned(w, u64::MAX as nat) {
                    Some(n) => n * 1024 <= u64::MAX ==> read_line(st, line).rss == n * 1024,
                    None => read_line(st, line).rss == 0,
                },
                None => read_line(st, line).rss == 0,
            }
        }),
{
    let c = colon_at(line, 0);
    if c < line.len() {
        let key = line.subrange(0, c);
        if key == "VmRSS"@ {
            assert(key != "Name"@) by {
                reveal_strlit("Name");
                reveal_strlit("VmRSS");
                assert(key.len() != "Name"@.len());
            }
            assert(key != "Uid"@) by {
                reveal_strlit("Uid");
                reveal_strlit("VmRSS");
                assert(key.len() != "Uid"@.len());
            }
        }
    }
}

proof fn lemma_read_lines_memory(lines: Seq<Seq<char>>, i: int, st: StatusFields)
    requires
        0 <= i,
    ensures
        read_lines(lines, i, st).rss == st.rss || exists|k: int|
            i <= k < lines.len() && gives_memory(#[trigger] lines[k], read_lines(lines, i, st).rss),
    decreases lines.len() - i,
{
    if i < lines.len() {
        let next = read_line(st, lines[i]);
        lemma_only_vmrss_sets_memory(st, lines[i]);
        if !complete(next) {
            lemma_read_lines_memory(lines, i + 1, next);
            if read_lines(lines, i + 1, next).rss != next.rss {
                let k = choose|k: int| i + 1 <= k < lines.len() && gives_memory(#[trigger] lines[k], read_lines(lines, i + 1, next).rss);
                assert(gives_memory(lines[k], read_lines(lines, i, st).rss));
            } else if next.rss != st.rss {
                assert(gives_memory(lines[i], read_lines(lines, i, st).rss));
            }
        } else if next.rss != st.rss {
            assert(gives_memory(lines[i], read_lines(lines, i, st).rss));
        }
    }
}

/// The resident memory read from a status text comes from one of its
/// `VmRSS` lines: where it is not zero, some line whose key is exactly
/// `VmRSS` has a first number that is 1024th of it. A text with no `VmRSS`
/// line reads as zero memory.
pub proof fn lemma_memory_is_from_vmrss_line(text: Seq<char>)
    ensures
        status_fields(text).rss != 0 ==> exists|k: int|
            0 <= k < lines_from(text, 0).len() && {
                let line = #[trigger] lines_from(text, 0)[k];
                let c = colon_at(line, 0);
                &&& c < line.len()
                &&& line.subrange(0, c) == "VmRSS"@
                &&& first_word(trimmed(line.subrange(c + 1, line.len() as int))) matches Some(w) && (parse_unsigned(
                    w,
                    u64::MAX as nat,
                ) matches Some(n) && status_fields(text).rss == n * 1024)
            },
        (forall|k: int|
            0 <= k < lines_from(text, 0).len() ==> {
                let line = #[trigger] lines_from(text, 0)[k];
                colon_at(line, 0) >= line.len() || line.subrange(0, colon_at(line, 0)) != "VmRSS"@
            }) ==> status_fields(text).rss == 0,
{
    let lines = lines_from(text, 0);
    let init = StatusFields { name: None, uid: None, rss: 0, overflow: false };
    lemma_read_lines_memory(lines, 0, init);
    if status_fields(text).rss != 0 {
        let k = choose|k: int| 0 <= k < lines.len() && gives_memory(#[trigger] lines[k], read_lines(lines, 0, init).rss);
        assert(0 <= k < lines_from(text, 0).len());
        let _ = lines_from(text, 0)[k];
    }
}

fn white_space(c: char) -> (b: bool)
    ensures
        b == is_white_space(c),
{
    let u = c as u32;
    (0x9 <= u && u <= 0xD) || u == 0x20 || u == 0x85 || u == 0xA0 || u == 0x1680 || (0x2000 <= u && u <= 0x200A)
        || u == 0x2028 || u == 0x2029 || u == 0x202F || u == 0x205F || u == 0x3000
}

proof fn lemma_trim_start_skip(s: Seq<char>, i: int)
    requires
        0 <= i <= s.len(),
        forall|k: int| 0 <= k < i ==> is_white_space(s[k]),
    ensures
        trim_start(s) == trim_start(s.subrange(i, s.len() as int)),
    decreases i,
{
    if i > 0 {
        assert(s.drop_first().subrange(i - 1, s.drop_first().len() as int) == s.subrange(i, s.len() as int));
        lemma_trim_start_skip(s.drop_first(), i - 1);
    } else {
        assert(s.subrange(0, s.len() as int) == s);
    }
}

proof fn lemma_trim_end_cut(s: Seq<char>, j: int)
    requires
        0 <= j <= s.len(),
        forall|k: int| j <= k < s.len() ==> is_white_space(s[k]),
    ensures
        trim_end(s) == trim_end(s.subrange(0, j)),
    decreases s.len() - j,
{
    if j < s.len() {
        assert(s.drop_last().subrange(0, j) == s.subrange(0, j));
        lemma_trim_end_cut(s.drop_last(), j);
    } else {
        assert(s.subrange(0, j) == s);
    }
}

/// `v` without leading or trailing white space.
pub(crate) fn trim_text(v: &Vec<char>) -> (r: Vec<char>)
    ensures
        r@ == trimmed(v@),
{
    let mut i: usize = 0;
    while i < v.len() && white_space(v[i])
        invariant
            i <= v@.len(),
            forall|k: int| 0 <= k < i ==> is_white_space(v@[k]),
        decreases v@.len() - i,
    {
        i = i + 1;
    }
    proof {
        lemma_trim_start_skip(v@, i as int);
    }
    let ghost t = v@.subrange(i as int, v@.len() as int);
    assert(trim_start(t) == t);
    let mut j: usize = v.len();
    while j > i && white_space(v[j - 1])
        invariant
            i <= j <= v@.len(),
            t == v@.subrange(i as int, v@.len() as int),
            forall|k: int| j <= k < v@.len() ==> is_white_space(v@[k]),
        decreases j,
    {
        j = j - 1;
    }
    proof {
        assert forall|k: int| j - i <= k < t.len() implies is_white_space(t[k]) by {
            assert(t[k] == v@[k + i]);
        }
        lemma_trim_end_cut(t, j - i);
        assert(t.subrange(0, j - i) == v@.subrange(i as int, j as int));
    }
    copy_range(v, i, j)
}

proof fn lemma_word_prefix(s: Seq<char>, j: int)
    requires
        0 <= j <= s.len(),
        forall|k: int| 0 <= k < j ==> !is_white_space(s[k]),
        j == s.len() || is_white_space(s[j]),
    ensures
        word_prefix(s) == s.subrange(0, j),
    decreases j,
{
    if j > 0 {
        lemma_word_prefix(s.drop_first(), j - 1);
        assert(s.subrange(0, j) == seq![s[0]] + s.drop_first().subrange(0, j - 1));
    }
}

/// The first white-space-separated word of `v`, if any.
fn first_word_chars(v: &Vec<char>) -> (r: Option<Vec<char>>)
    ensures
        match r {
            Some(w) => first_word(v@) == Some(w@),
            None => first_word(v@) is None,
        },
{
    let mut i: usize = 0;
    while i < v.len() && white_space(v[i])
        invariant
            i <= v@.len(),
            forall|k: int| 0 <= k < i ==> is_white_space(v@[k]),
        decreases v@.len() - i,
    {
        i = i + 1;
    }
    proof {
        lemma_trim_start_skip(v@, i as int);
    }
    let ghost t = v@.subrange(i as int, v@.len() as int);
    assert(trim_start(t) == t);
    if i == v.len() {
        return None;
    }
    let mut j: usize = i;
    while j < v.len() && !white_space(v[j])
        invariant
            i <= j <= v@.len(),
            forall|k: int| i <= k < j ==> !is_white_space(v@[k]),
        decreases v@.len() - j,
    {
        j = j + 1;
    }
    proof {
        assert forall|k: int| 0 <= k < j - i implies !is_white_space(t[k]) by {
            assert(t[k] == v@[k + i]);
        }
        if j < v@.len() {
            assert(t[j - i] == v@[j as int]);
        }
        lemma_word_prefix(t, j - i);
        assert(t.subrange(0, j - i) == v@.subrange(i as int, j as int));
    }
    Some(copy_range(v, i, j))
}

proof fn lemma_digits_value_step(d: Seq<char>, i: int)
    requires
        0 <= i < d.len(),
    ensures
        digits_value(d.take(i + 1)) == digits_value(d.take(i)) * 10 + ((d[i] as u32) - 48) as nat,
{
    assert(d.take(i + 1).drop_last() == d.take(i));
}

/// `v`, or `max + 1` where `v` is past `max`.
spec fn capped(v: nat, max: nat) -> nat {
    if v > max {
        max + 1
    } else {
        v
    }
}

/// `s` read as an unsigned number no larger than `max`, as std's `from_str` reads it.
fn parse_unsigned_chars(s: &Vec<char>, max: u64) -> (r: Option<u64>)
    ensures
        match r {
            Some(n) => parse_unsigned(s@, max as nat) == Some(n as nat),
            None => parse_unsigned(s@, max as nat) is None,
        },
{
    let start: usize = if s.len() > 0 && s[0] == '+' {
        1
    } else {
        0
    };
    let ghost digits = unsigned_digits(s@);
    assert(digits == s@.subrange(start as int, s@.len() as int));
    if start == s.len() {
        return None;
    }
    // The value read so far, held at `max + 1` once it is past `max`.
    let mut acc: u128 = 0;
    let mut i: usize = start;
    while i < s.len()
        invariant
            start <= i <= s@.len(),
            digits == unsigned_digits(s@),
            digits == s@.subrange(start as int, s@.len() as int),
            forall|k: int| 0 <= k < i - start ==> is_digit(#[trigger] digits[k]),
            acc == capped(digits_value(digits.take(i - start)), max as nat),
        decreases s@.len() - i,
    {
        let c = s[i];
        assert(digits[i - start] == s@[i as int]);
        if !('0' <= c && c <= '9') {
            assert(!is_digit(digits[i - start]));
            assert(!all_digits(digits));
            assert(digits == unsigned_digits(s@));
            assert(parse_unsigned(s@, max as nat) is None);
            return None;
        }
        let d = (c as u32 - 48) as u128;
        proof {
            lemma_digits_value_step(digits, i - start);
            assert(digits[i - start] == c);
        }
        let next = acc * 10 + d;
        acc = if next > max as u128 {
            max as u128 + 1
        } else {
            next
        };
        i = i + 1;
    }
    assert(digits.take(digits.len() as int) == digits);
    assert(all_digits(digits));
    if acc > max as u128 {
        None
    } else {
        Some(acc as u64)
    }
}

fn find_line_end(s: &Vec<char>, from: usize) -> (e: usize)
    requires
        from <= s@.len(),
    ensures
        e == line_end(s@, from as int),
{
    proof {
        lemma_line_end(s@, from as int);
    }
    let mut i = from;
    while i < s.len() && s[i] != '\n'
        invariant
            from <= i <= s@.len(),
            line_end(s@, from as int) == line_end(s@, i as int),
        decreases s@.len() - i,
    {
        i = i + 1;
    }
    i
}

fn find_colon(s: &Vec<char>) -> (c: usize)
    ensures
        c == colon_at(s@, 0),
        c <= s@.len(),
{
    let mut i: usize = 0;
    while i < s.len() && s[i] != ':'
        invariant
            i <= s@.len(),
            colon_at(s@, 0) == colon_at(s@, i as int),
        decreases s@.len() - i,
    {
        i = i + 1;
    }
    i
}

/// The fields read so far, as the loop holds them.
struct StatusReader {
    name: Option<String>,
    uid: Option<u32>,
    rss: u64,
    overflow: bool,
}

impl View for StatusReader {
    type V = StatusFields;

    closed spec fn view(&self) -> StatusFields {
        StatusFields {
            name: match self.name {
                Some(n) => Some(n@),
                None => None,
            },
            uid: self.uid,
            rss: self.rss,
            overflow: self.overflow,
        }
    }
}

fn read_line_exec(st: &mut StatusReader, line: &Vec<char>)
    ensures
        final(st)@ == read_line(old(st)@, line@),
{
    let c = find_colon(line);
    if c >= line.len() {
        return;
    }
    let key = copy_range(line, 0, c);
    let rest = copy_range(line, c + 1, line.len());
    let value = trim_text(&rest);
    if chars_equal(&key, "Name") {
        st.name = Some(string_of(&value));
    } else if chars_equal(&key, "Uid") {
        st.uid = match first_word_chars(&value) {
            Some(w) => match parse_unsigned_chars(&w, u32::MAX as u64) {
                Some(n) => Some(n as u32),
                None => None,
            },
            None => None,
        };
    } else if chars_equal(&key, "VmRSS") {
        let kb: u64 = match first_word_chars(&value) {
            Some(w) => match parse_unsigned_chars(&w, u64::MAX) {
                Some(n) => n,
                None => 0,
            },
            None => 0,
        };
        if kb > u64::MAX / 1024 {
            st.rss = 0;
            st.overflow = true;
        } else {
            st.rss = kb * 1024;
        }
    }
}

proof fn lemma_read_lines_shift(l: Seq<char>, rest: Seq<Seq<char>>, i: int, st: StatusFields)
    requires
        i >= 1,
    ensures
        read_lines(seq![l] + rest, i, st) == read_lines(rest, i - 1, st),
    decreases rest.len() + 1 - i,
{
    let a = seq![l] + rest;
    if i < a.len() {
        assert(a[i] == rest[i - 1]);
        lemma_read_lines_shift(l, rest, i + 1, read_line(st, a[i]));
    }
}

fn read_status(text: &str) -> (st: StatusReader)
    ensures
        st@ == status_fields(text@),
{
    let s = chars_of(text);
    let mut st = StatusReader { name: None, uid: None, rss: 0, overflow: false };
    let ghost init = st@;
    let mut from: usize = 0;
    while from < s.len()
        invariant
            s@ == text@,
            from <= s@.len(),
            status_fields(text@) == read_lines(lines_from(s@, from as int), 0, st@),
            !complete(st@) || from == 0,
            from == 0 ==> st@ == init,
        decreases s@.len() - from,
    {
        let e = find_line_end(&s, from);
        proof {
            lemma_line_end(s@, from as int);
        }
        let mut line = copy_range(&s, from, e);
        if e < s.len() && line.len() > 0 && line[line.len() - 1] == '\r' {
            line.pop();
        }
        let ghost rest = lines_from(s@, e + 1);
        assert(lines_from(s@, from as int) == seq![line@] + rest);
        read_line_exec(&mut st, &line);
        if st.name.is_some() && st.uid.is_some() && st.rss != 0 {
            assert(complete(st@));
            return st;
        }
        proof {
            lemma_read_lines_shift(line@, rest, 1, st@);
        }
        from = if e < s.len() {
            e + 1
        } else {
            e
        };
    }
    st
}

/// What `/proc/<pid>/status` says about a process: its name, owner and
/// resident memory. Without a name and a uid there is nothing to show.
pub fn parse_status(text: &str) -> (r: Option<ProcInfo>)
    requires
        !status_fields(text@).overflow,
    ensures
        r is Some <==> (status_fields(text@).name is Some && status_fields(text@).uid is Some),
        r matches Some(info) ==> info.name@ == status_fields(text@).name->0 && info.uid == status_fields(
            text@,
        ).uid->0 && info.rss == status_fields(text@).rss,
{
    let st = read_status(text);
    match (st.name, st.uid) {
        (Some(name), Some(uid)) => Some(ProcInfo { name, uid, rss: st.rss }),
        _ => None,
    }
}

/// Whether the status text gives a resident memory whose byte count does
/// not fit a `u64` (`parse_status` does not take such a text).
pub fn status_overflows(text: &str) -> (b: bool)
    ensures
        b == status_fields(text@).overflow,
{
    read_status(text).overflow
}

/// What std's `String::from_utf8_lossy` gives for `bytes`: the text they
/// encode, each invalid UTF-8 sequence replaced by U+FFFD.
pub uninterp spec fn utf8_lossy(bytes: Seq<u8>) -> Seq<char>;

/// Calls std's `String::from_utf8_lossy`; the result is named by
/// `utf8_lossy`, and, as its documentation says (only invalid sequences are
/// replaced), valid UTF-8 decodes to the text it encodes.
#[verifier::external_body]
fn from_utf8_lossy(bytes: &Vec<u8>) -> (s: String)
    ensures
        s@ == utf8_lossy(bytes@),
        valid_utf8(bytes@) ==> s@ == decode_utf8(bytes@),
{
    String::from_utf8_lossy(bytes.as_slice()).into_owned()
}

/// The bytes of `field` before its first NUL, or all of them.
pub open spec fn before_nul(field: Seq<u8>) -> Seq<u8>
    decreases field.len(),
{
    if field.len() == 0 || field[0] == 0 {
        seq![]
    } else {
        seq![field[0]] + before_nul(field.drop_first())
    }
}

/// The text of a fixed-size, NUL-padded C char field, or `None` where it is
/// empty.
pub fn name_from_field(field: &Vec<u8>) -> (r: Option<String>)
    ensures
        match r {
            Some(s) => s@ == utf8_lossy(before_nul(field@)) && s@.len() > 0,
            None => utf8_lossy(before_nul(field@)).len() == 0,
        },
{
    let mut end: usize = 0;
    while end < field.len() && field[end] != 0
        invariant
            end <= field@.len(),
            forall|k: int| 0 <= k < end ==> field@[k] != 0,
        decreases field@.len() - end,
    {
        end = end + 1;
    }
    let mut bytes: Vec<u8> = Vec::new();
    let mut i: usize = 0;
    while i < end
        invariant
            end <= field@.len(),
            i <= end,
            bytes@ == field@.subrange(0, i as int),
        decreases end - i,
    {
        bytes.push(field[i]);
        assert(field@.subrange(0, i + 1) == field@.subrange(0, i as int).push(field@[i as int]));
        i = i + 1;
    }
    proof {
        lemma_before_nul(field@, end as int);
    }
    let s = from_utf8_lossy(&bytes);
    if s.as_str().is_empty() {
        None
    } else {
        Some(s)
    }
}

proof fn lemma_before_nul(field: Seq<u8>, end: int)
    requires
        0 <= end <= field.len(),
        forall|k: int| 0 <= k < end ==> field[k] != 0,
        end == field.len() || field[end] == 0,
    ensures
        before_nul(field) == field.subrange(0, end),
    decreases end,
{
    if end > 0 {
        lemma_before_nul(field.drop_first(), end - 1);
        assert(field.subrange(0, end) == seq![field[0]] + field.drop_first().subrange(0, end - 1));
    }
}

/// A process's name from its two name fields: the accounting name, which is
/// empty for some processes, else the always-present but truncated command
/// name.
pub fn process_name(name: &Vec<u8>, comm: &Vec<u8>) -> (r: Option<String>)
    ensures
        utf8_lossy(before_nul(name@)).len() > 0 ==> r is Some && r->0@ == utf8_lossy(before_nul(name@)),
        utf8_lossy(before_nul(name@)).len() == 0 && utf8_lossy(before_nul(comm@)).len() > 0 ==> r is Some && r->0@
            == utf8_lossy(before_nul(comm@)),
        utf8_lossy(before_nul(name@)).len() == 0 && utf8_lossy(before_nul(comm@)).len() == 0 ==> r is None,
{
    match name_from_field(name) {
        Some(s) => Some(s),
        None => name_from_field(comm),
    }
}

} // verus!
