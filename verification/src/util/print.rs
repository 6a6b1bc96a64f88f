use vstd::prelude::*;
use vstd::std_specs::iter::IteratorSpec;
use crate::util::backtrace::{caller_at, caller_up, call_path, callers_from_trace, callers_of, callers_path};

verus! {

/// The decimal digit `d` as a character.
pub open spec fn digit_char(d: nat) -> char {
    (48 + d) as char
}

/// The decimal representation of `n`, without leading zeros.
pub open spec fn dec(n: nat) -> Seq<char>
    decreases n,
{
    if n < 10 {
        seq![digit_char(n)]
    } else {
        dec(n / 10) + seq![digit_char(n % 10)]
    }
}

/// Appends the decimal digit `d`.
fn append_digit(s: &mut String, d: u8)
    requires
        d < 10,
    ensures
        final(s)@ == old(s)@.push(digit_char(d as nat)),
{
    proof {
        reveal_strlit("0");
        reveal_strlit("1");
        reveal_strlit("2");
        reveal_strlit("3");
        reveal_strlit("4");
        reveal_strlit("5");
        reveal_strlit("6");
        reveal_strlit("7");
        reveal_strlit("8");
        reveal_strlit("9");
    }
    if d == 0 {
        s.append("0");
    } else if d == 1 {
        s.append("1");
    } else if d == 2 {
        s.append("2");
    } else if d == 3 {
        s.append("3");
    } else if d == 4 {
        s.append("4");
    } else if d == 5 {
        s.append("5");
    } else if d == 6 {
        s.append("6");
    } else if d == 7 {
        s.append("7");
    } else if d == 8 {
        s.append("8");
    } else {
        s.append("9");
    }
}

/// Appends the decimal representation of `n`.
pub(crate) fn append_dec(s: &mut String, n: u8)
    ensures
        final(s)@ == old(s)@ + dec(n as nat),
{
    if n >= 100 {
        append_digit(s, n / 100);
    }
    if n >= 10 {
        append_digit(s, n / 10 % 10);
    }
    append_digit(s, n % 10);
    proof {
        reveal_with_fuel(dec, 3);
        if n >= 100 {
            assert(dec(n as nat / 10) == dec(n as nat / 100) + seq![digit_char((n as nat / 10) % 10)]);
        }
    }
    assert(final(s)@ =~= old(s)@ + dec(n as nat));
}

/// `text` in the 24-bit foreground colour `col`: `ESC[38;2;R;G;Bm`, the text, `ESC[0m`.
pub open spec fn col_spec(text: Seq<char>, col: [u8; 3]) -> Seq<char> {
    "\x1b[38;2;"@ + dec(col[0] as nat) + ";"@ + dec(col[1] as nat) + ";"@ + dec(col[2] as nat) + "m"@
        + text + "\x1b[0m"@
}

/// `text` on the 24-bit background colour `col`: `ESC[48;2;R;G;Bm`, the text, `ESC[0m`.
pub open spec fn bg_col_spec(text: Seq<char>, col: [u8; 3]) -> Seq<char> {
    "\x1b[48;2;"@ + dec(col[0] as nat) + ";"@ + dec(col[1] as nat) + ";"@ + dec(col[2] as nat) + "m"@
        + text + "\x1b[0m"@
}

/// `text` dimmed: `ESC[2m`, the text, `ESC[0m`.
pub open spec fn dim_spec(text: Seq<char>) -> Seq<char> {
    "\x1b[2m"@ + text + "\x1b[0m"@
}

fn coloured(text: &str, col: [u8; 3], lead: &str) -> (r: String)
    ensures
        r@ == lead@ + dec(col[0] as nat) + ";"@ + dec(col[1] as nat) + ";"@ + dec(col[2] as nat)
            + "m"@ + text@ + "\x1b[0m"@,
{
    let mut s = String::from_str(lead);
    append_dec(&mut s, col[0]);
    s.append(";");
    append_dec(&mut s, col[1]);
    s.append(";");
    append_dec(&mut s, col[2]);
    s.append("m");
    s.append(text);
    s.append("\x1b[0m");
    s
}

pub fn col(text: &str, rgb: [u8; 3]) -> (r: String)
    ensures
        r@ == col_spec(text@, rgb),
{
    coloured(text, rgb, "\x1b[38;2;")
}

pub fn bg_col(text: &str, rgb: [u8; 3]) -> (r: String)
    ensures
        r@ == bg_col_spec(text@, rgb),
{
    coloured(text, rgb, "\x1b[48;2;")
}

pub fn dim(text: &str) -> (r: String)
    ensures
        r@ == dim_spec(text@),
{
    let mut s = String::from_str("\x1b[2m");
    s.append(text);
    s.append("\x1b[0m");
    s
}

pub const FATAL_RGB: [u8; 3] = [241, 76, 76];

pub const ERR_RGB: [u8; 3] = [241, 76, 76];

pub const WARN_RGB: [u8; 3] = [245, 245, 67];

pub const SUCCESS_RGB: [u8; 3] = [35, 209, 139];

pub const INFO_RGB: [u8; 3] = [41, 184, 219];

/// How serious a logged message is.
pub enum Level {
    Trace,
    Debug,
    Info,
    Success,
    Warn,
    Error,
    Fatal,
}

/// The tag that a log file line of level `l` starts with.
pub open spec fn level_tag(l: Level) -> Seq<char> {
    match l {
        Level::Trace => "[TRACE]"@,
        Level::Debug => "[DEBUG]"@,
        Level::Info => " [INFO]"@,
        Level::Success => "[SUCCS]"@,
        Level::Warn => " [WARN]"@,
        Level::Error => "[ERROR]"@,
        Level::Fatal => "[FATAL]"@,
    }
}

/// A log file line: two spaces, the level's tag, a space and the message, and a line break
/// unless the message ends in one.
pub open spec fn file_line(l: Level, msg: Seq<char>) -> Seq<char> {
    "  "@ + level_tag(l) + " "@ + msg + if msg.len() > 0 && msg.last() == '\n' {
        Seq::empty()
    } else {
        "\n"@
    }
}

/// The tag of level `l`, as `level_tag` says.
pub fn level_tag_str(l: &Level) -> (r: &'static str)
    ensures
        r@ == level_tag(*l),
{
    match l {
        Level::Trace => "[TRACE]",
        Level::Debug => "[DEBUG]",
        Level::Info => " [INFO]",
        Level::Success => "[SUCCS]",
        Level::Warn => " [WARN]",
        Level::Error => "[ERROR]",
        Level::Fatal => "[FATAL]",
    }
}

/// Whether `s` ends in a line break.
pub fn ends_in_newline(s: &str) -> (r: bool)
    ensures
        r == (s@.len() > 0 && s@.last() == '\n'),
{
    broadcast use vstd::string::group_string_axioms;

    let mut it = s.chars();
    let ghost total = s@;
    let mut last: Option<char> = None;
    loop
        invariant
            it.obeys_prophetic_iter_laws(),
            it.decrease() is Some,
            total == s@,
            ({
                let done = (total.len() - it.remaining().len()) as int;
                &&& 0 <= done <= total.len()
                &&& it.remaining() == total.subrange(done, total.len() as int)
                &&& (done == 0 ==> last is None)
                &&& (done > 0 ==> last == Some(total[done - 1]))
            }),
        ensures
            total == s@,
            total.len() == 0 ==> last is None,
            total.len() > 0 ==> last == Some(total.last()),
        decreases it.decrease()->0,
    {
        match it.next() {
            None => {
                break;
            },
            Some(c) => {
                last = Some(c);
            },
        }
    }
    match last {
        Some(c) => c == '\n',
        None => false,
    }
}

/// The line that a log file holds for a message `msg` of level `l`, as `file_line` says.
pub fn format_file_line(l: &Level, msg: &str) -> (r: String)
    ensures
        r@ == file_line(*l, msg@),
{
    let mut s = String::from_str("  ");
    s.append(level_tag_str(l));
    s.append(" ");
    s.append(msg);
    if !ends_in_newline(msg) {
        s.append("\n");
    }
    s
}

/// The escape sequence that a console line of level `l` starts with: dimmed for trace lines,
/// the level's colour for the others but debug lines, which have none.
pub open spec fn level_prefix(l: Level) -> Seq<char> {
    match l {
        Level::Trace => "\x1b[2m"@,
        Level::Debug => Seq::empty(),
        Level::Info => "\x1b[38;2;41;184;219m"@,
        Level::Success => "\x1b[38;2;35;209;139m"@,
        Level::Warn => "\x1b[38;2;245;245;67m"@,
        Level::Error => "\x1b[38;2;241;76;76m"@,
        Level::Fatal => "\x1b[38;2;241;76;76m"@,
    }
}

/// A console line: a debug message as it is; trace, info and success messages in their
/// colour; warnings, errors and fatal errors in their colour followed by the dimmed call stack
/// `trace`, warnings and errors ending the line.
pub open spec fn console_line(l: Level, msg: Seq<char>, trace: Seq<char>) -> Seq<char> {
    match l {
        Level::Debug => msg,
        Level::Trace | Level::Info | Level::Success => level_prefix(l) + msg + "\x1b[0m"@,
        Level::Warn | Level::Error => level_prefix(l) + msg + "\x1b[2m"@ + trace + "\x1b[0m"@
            + "\n"@,
        Level::Fatal => level_prefix(l) + msg + "\x1b[2m"@ + trace + "\x1b[0m"@,
    }
}

/// The console text for a message `msg` of level `l` with call stack `trace`, as
/// `console_line` says.
pub fn format_console_line(l: &Level, msg: &str, trace: &str) -> (r: String)
    ensures
        r@ == console_line(*l, msg@, trace@),
{
    match l {
        Level::Debug => String::from_str(msg),
        Level::Trace | Level::Info | Level::Success => {
            let mut s = String::from_str(
                match l {
                    Level::Trace => "\x1b[2m",
                    Level::Info => "\x1b[38;2;41;184;219m",
                    _ => "\x1b[38;2;35;209;139m",
                },
            );
            s.append(msg);
            s.append("\x1b[0m");
            s
        },
        _ => {
            let mut s = String::from_str(
                match l {
                    Level::Warn => "\x1b[38;2;245;245;67m",
                    _ => "\x1b[38;2;241;76;76m",
                },
            );
            s.append(msg);
            s.append("\x1b[2m");
            s.append(trace);
            s.append("\x1b[0m");
            if !matches!(l, Level::Fatal) {
                s.append("\n");
            }
            s
        },
    }
}


/// The text of a backtrace of the running thread: `std::backtrace::Backtrace::force_capture`,
/// rendered by its `Display`. Nothing is claimed of the text, which depends on the running
/// program and its debug information.
#[verifier::external_body]
fn capture_trace() -> (r: String) {
    format!("{}", std::backtrace::Backtrace::force_capture())
}

/// The source locations on the call stack within the crate's sources, outermost first, as
/// `callers_of` says of the captured backtrace, which depends on the running program.
pub fn backtrace_callers() -> (r: Vec<String>)
    ensures
        exists|t: Seq<char>| r@.map_values(|s: String| s@) == #[trigger] callers_of(t),
        r@.len() >= 1,
{
    let t = capture_trace();
    let r = callers_from_trace(t.as_str());
    proof {
        assert(r@.map_values(|s: String| s@).len() == r@.len());
    }
    r
}

/// The call stack as `a > b > c`, the innermost `skips + 1` callers left out.
pub fn backtrace(skips: usize) -> (r: String)
    requires
        skips < usize::MAX,
    ensures
        exists|t: Seq<char>| r@ == call_path(#[trigger] callers_of(t), skips as nat),
{
    let callers = backtrace_callers();
    callers_path(&callers, skips)
}

/// The caller `skips + 2` levels up.
pub fn backtrace_last(skips: usize) -> (r: String)
    requires
        skips + 2 <= usize::MAX,
    ensures
        exists|t: Seq<char>| r@ == caller_up(#[trigger] callers_of(t), skips as nat),
{
    let callers = backtrace_callers();
    caller_at(&callers, skips)
}

/// The indices, in order, of the first `n` of `names` that are `name`.
pub open spec fn indices_named(names: Seq<Seq<char>>, name: Seq<char>, n: nat) -> Seq<usize>
    decreases n,
{
    if n == 0 {
        Seq::empty()
    } else {
        let r = indices_named(names, name, (n - 1) as nat);
        if names[n - 1] == name {
            r.push((n - 1) as usize)
        } else {
            r
        }
    }
}

/// The sinks, by index, that a record logged to the sink `name` goes to: those of `names` called
/// `name`, in order.
pub fn sinks_named(names: &Vec<String>, name: &str) -> (r: Vec<usize>)
    ensures
        r@ == indices_named(names@.map_values(|s: String| s@), name@, names@.len()),
{
    let key = name.to_owned();
    let ghost all = names@.map_values(|s: String| s@);
    let mut r: Vec<usize> = Vec::new();
    let mut i: usize = 0;
    while i < names.len()
        invariant
            i <= names.len(),
            key@ == name@,
            all == names@.map_values(|s: String| s@),
            r@ == indices_named(all, name@, i as nat),
        decreases names.len() - i,
    {
        assert(all[i as int] == names@[i as int]@);
        if names[i] == key {
            r.push(i);
        }
        i = i + 1;
    }
    r
}

} // verus!
