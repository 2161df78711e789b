use vstd::prelude::*;

use crate::frame::Ip;

pub mod compiler;
pub mod jumpresolver;
pub mod x86;

verus! {

/// How code produced by the JIT handed control back.
pub enum JitReturn<V> {
    /// JIT code returns normally at the given bytecode ip.
    Normal { ip: Ip },
    /// JIT code threw the given value.
    Exception { value: V },
}

/// Whether an instruction handler called from JIT code finished normally or threw.
#[derive(Debug, Copy, Clone, PartialEq, PartialOrd)]
pub enum HandlerStubStatus {
    Normal,
    Exception,
}

} // verus!
