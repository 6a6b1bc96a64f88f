use vstd::prelude::*;
use crate::util::print::{bg_col_spec, col_spec, dim_spec};
use crate::util::backtrace::{caller_up, call_path, callers_of};

verus! {

pub fn col(text: &str, rgb: [u8; 3]) -> (r: String)
    ensures
        r@ == col_spec(text@, rgb),
{
    crate::util::print::col(text, rgb)
}

pub fn bg_col(text: &str, rgb: [u8; 3]) -> (r: String)
    ensures
        r@ == bg_col_spec(text@, rgb),
{
    crate::util::print::bg_col(text, rgb)
}

pub fn dim(text: &str) -> (r: String)
    ensures
        r@ == dim_spec(text@),
{
    crate::util::print::dim(text)
}

/// `text` on a red background.
pub fn fatal(text: &str) -> (r: String)
    ensures
        r@ == bg_col_spec(text@, [241u8, 76u8, 76u8]),
{
    bg_col(text, [241, 76, 76])
}

/// `text` in red.
pub fn err(text: &str) -> (r: String)
    ensures
        r@ == col_spec(text@, [241u8, 76u8, 76u8]),
{
    col(text, [241, 76, 76])
}

/// `text` in yellow.
pub fn warn(text: &str) -> (r: String)
    ensures
        r@ == col_spec(text@, [245u8, 245u8, 67u8]),
{
    col(text, [245, 245, 67])
}

/// `text` in blue.
pub fn info(text: &str) -> (r: String)
    ensures
        r@ == col_spec(text@, [41u8, 184u8, 219u8]),
{
    col(text, [41, 184, 219])
}

/// `text` dimmed.
pub fn trace(text: &str) -> (r: String)
    ensures
        r@ == dim_spec(text@),
{
    dim(text)
}


/// The source locations on the call stack within the crate's sources, outermost first, as
/// `callers_of` says of the captured backtrace, which depends on the running program.
pub fn backtrace_callers() -> (r: Vec<String>)
    ensures
        exists|t: Seq<char>| r@.map_values(|s: String| s@) == #[trigger] callers_of(t),
        r@.len() >= 1,
{
    crate::util::print::backtrace_callers()
}

/// The call stack as `a > b > c`, the innermost `skips + 1` callers left out.
pub fn backtrace(skips: usize) -> (r: String)
    requires
        skips < usize::MAX,
    ensures
        exists|t: Seq<char>| r@ == call_path(#[trigger] callers_of(t), skips as nat),
{
    crate::util::print::backtrace(skips)
}

/// The caller `skips + 2` levels up.
pub fn backtrace_last(skips: usize) -> (r: String)
    requires
        skips + 2 <= usize::MAX,
    ensures
        exists|t: Seq<char>| r@ == caller_up(#[trigger] callers_of(t), skips as nat),
{
    crate::util::print::backtrace_last(skips)
}

} // verus!
