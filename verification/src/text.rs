//! Laying out lines of text: how lines are aligned, and which lines stay
//! when only so many can be shown.

use vstd::prelude::*;

verus! {

/// How the lines of a text are aligned within its box.
#[derive(Clone, Copy, PartialEq, Eq, Debug)]
pub enum Align {
    Left,
    Right,
    Center,
}

/// The lines that stay of `lines` when at most `max_lines` can be shown:
/// the last `max_lines` of them, and all where no limit is set.
pub open spec fn culled<T>(lines: Seq<T>, max_lines: Option<usize>) -> Seq<T> {
    match max_lines {
        Some(n) => if lines.len() > n {
            lines.subrange(lines.len() - n, lines.len() as int)
        } else {
            lines
        },
        None => lines,
    }
}

/// Drops lines from the front until at most `max_lines` are left.
pub fn cull_lines<T>(lines: &mut Vec<T>, max_lines: Option<usize>)
    ensures
        final(lines)@ == culled(old(lines)@, max_lines),
{
    if let Some(n) = max_lines {
        if lines.len() > n {
            let new_len: usize = lines.len() - n;
            let kept: Vec<T> = lines.split_off(new_len);
            *lines = kept;
        }
    }
}

} // verus!
