//! Front end of a Warren Abstract Machine: a symbol interner, the first-order
//! term data model, the query instruction set with its textual rendering, and
//! the flattening compiler that turns a term into an instruction sequence.
use vstd::prelude::*;

pub mod alloc_table;
pub mod ast;
pub mod compiler;
pub mod laws;
pub mod machine;
pub mod pool;

verus! {

/// Interned symbol identifier: a dense index into a [`pool::Pool`].
pub type Atom = u16;

/// Machine register number; register 0 holds the outermost term.
pub type Reg = u8;

/// Everything that can go wrong in this crate.
///
/// Compilation itself cannot fail on well-formed input; only the bounded
/// register and symbol-id widths, and rendering with a foreign pool, can.
#[derive(Debug, Clone, Copy, PartialEq, Eq)]
pub enum CompilerError {
    /// Rendering was asked to resolve an id that this pool never issued.
    UnknownSymbol,
    /// Compilation would need more registers than `Reg` can represent,
    /// or a structure's arity does not fit in the arity operand.
    RegisterOverflow,
    /// Interning one more name would exceed the `Atom` id space.
    SymbolOverflow,
}

} // verus!
