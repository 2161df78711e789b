//! Verified core pieces of the dash JavaScript virtual machine: the garbage
//! collector's allocators and handle flags, the x86-64 code emitters of the
//! JIT together with its jump resolver, the JSON parser and a set of the
//! built-in string, array and number operations.
use vstd::prelude::*;

pub mod dispatch;
pub mod external;
pub mod frame;
pub mod framestack;
pub mod fxmap;
pub mod gc;
pub mod gc2;
pub mod jit;
pub mod js_std;
pub mod json;
pub mod localscope;
pub mod util;

use crate::frame::TryBlock;

verus! {

/// Where a runtime error sends the interpreter.
#[derive(Debug, Clone, Copy, PartialEq, Eq)]
pub enum ErrorTarget {
    /// No `try` block of this execution can take the error: the active frame is popped and the
    /// error goes to the caller.
    Propagate,
    /// The frames above the first `frame_count` go and the active frame continues at the catch
    /// block, which starts with the local the error is bound to (none where it reads `u16::MAX`).
    Catch { frame_count: usize, catch_ip: usize },
    /// The frames above the first `frame_count` go, the error becomes the active frame's delayed
    /// return, and it continues at `ip`, just after the start of the `finally` block.
    Finally { frame_count: usize, ip: usize },
    /// The frames above the first `frame_count` go; the block had neither catch nor finally.
    Unwind { frame_count: usize },
}

/// The target of an error for the innermost `try` block, which is taken.
pub open spec fn target_of(t: TryBlock) -> ErrorTarget {
    match t.catch_ip {
        Some(c) => ErrorTarget::Catch { frame_count: t.frame_idx, catch_ip: c },
        None => match t.finally_ip {
            Some(f) => ErrorTarget::Finally { frame_count: t.frame_idx, ip: (f + 1) as usize },
            None => ErrorTarget::Unwind { frame_count: t.frame_idx },
        },
    }
}

/// Whether the innermost `try` block can take an error raised in an execution that started
/// with `max_fp` frames: it must not belong to a frame below that execution.
pub open spec fn can_take(try_blocks: Seq<TryBlock>, max_fp: usize) -> bool {
    try_blocks.len() > 0 && try_blocks.last().frame_idx >= max_fp
}

/// The `try` blocks after the innermost one took an error: it is gone, and where it had both a
/// catch and a finally block, a block with only the finally block takes its place, so that an
/// error thrown inside the catch block still runs the finally block.
pub open spec fn blocks_after_catch(try_blocks: Seq<TryBlock>) -> Seq<TryBlock> {
    let t = try_blocks.last();
    if t.catch_ip is Some && t.finally_ip is Some {
        try_blocks.drop_last().push(TryBlock { catch_ip: None, finally_ip: t.finally_ip, frame_idx: t.frame_idx })
    } else {
        try_blocks.drop_last()
    }
}

/// Decides where a runtime error raised in an execution that started with `max_fp` frames goes,
/// and updates the stack of active `try` blocks accordingly.
pub fn handle_rt_error(try_blocks: &mut Vec<TryBlock>, max_fp: usize) -> (r: ErrorTarget)
    requires
        can_take(old(try_blocks)@, max_fp) && old(try_blocks)@.last().catch_ip is None
            ==> (old(try_blocks)@.last().finally_ip matches Some(f) ==> f < usize::MAX),
    ensures
        !can_take(old(try_blocks)@, max_fp) ==> r == ErrorTarget::Propagate && final(try_blocks)@ == old(try_blocks)@,
        can_take(old(try_blocks)@, max_fp) ==> r == target_of(old(try_blocks)@.last())
            && final(try_blocks)@ == blocks_after_catch(old(try_blocks)@),
{
    let n = try_blocks.len();
    if n == 0 {
        return ErrorTarget::Propagate;
    }
    let t = try_blocks[n - 1];
    if t.frame_idx < max_fp {
        // The innermost block belongs to a frame that this execution must not unwind into.
        return ErrorTarget::Propagate;
    }
    try_blocks.pop();
    match t.catch_ip {
        Some(catch_ip) => {
            match t.finally_ip {
                Some(finally_ip) => {
                    try_blocks.push(TryBlock { catch_ip: None, finally_ip: Some(finally_ip), frame_idx: t.frame_idx });
                },
                None => {},
            }
            ErrorTarget::Catch { frame_count: t.frame_idx, catch_ip }
        },
        None => match t.finally_ip {
            Some(finally_ip) => ErrorTarget::Finally { frame_count: t.frame_idx, ip: finally_ip + 1 },
            None => ErrorTarget::Unwind { frame_count: t.frame_idx },
        },
    }
}

/// What settling a promise does to it.
#[derive(Debug, Clone, Copy, PartialEq, Eq)]
pub enum PromiseAction {
    Resolve,
    Reject,
}

} // verus!
