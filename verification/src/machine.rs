use vstd::prelude::*;

use crate::pool::Pool;
use crate::Atom;

verus! {

/// One tagged heap cell of the abstract machine's term representation.
///
/// A structure `f(t1, ..., tn)` is laid out as `<STR, k>` pointing at a
/// functor cell `<FUN, name, n>` that is contiguously followed by its `n`
/// argument cells. An unbound variable is a reference cell pointing at
/// itself; binding makes cells share by pointing at the same heap index.
#[derive(Debug, Clone, Copy, PartialEq, Eq)]
enum HeapCell {
    /// `<REF, k>`: a reference to heap index `k`; self-reference means
    /// unbound.
    Ref(u16),
    /// `<STR, k>`: a structure whose functor cell sits at heap index `k`.
    Str(u16),
    /// `<FUN, name, arity>`: a functor, followed by its `arity` arguments.
    Fun { name: Atom, arity: u8 },
}

/// The runtime shell an instruction executor would drive: a heap of tagged
/// cells, the next-free-cell register, and a symbol pool to resolve functor
/// names. The executor itself is a future consumer of the compiler's output
/// and is not implemented here.
pub struct Machine {
    /// Address of the next free heap cell.
    h: usize,
    heap: Vec<HeapCell>,
    symbols: Pool,
}

} // verus!
