use vstd::prelude::*;

verus! {

/// A first-order logic term: the compiler's input.
///
/// Two `Variable` occurrences with the same name inside one compiled term
/// denote the same logical variable. A `Clause` is a compound structure
/// `functor(arg1, ..., argn)` with arity `n >= 1` by convention; a zero-arity
/// structure is written as an `Atom`.
#[derive(Debug)]
pub enum Term {
    Atom(String),
    Variable(String),
    Clause { functor: String, args: Vec<Term> },
}

/// How many arguments of clause `t` lie at or after index `i`; zero for a
/// non-clause. A termination measure for walks over a clause's arguments.
pub open spec fn args_remaining(t: Term, i: int) -> int {
    match t {
        Term::Clause { functor, args } => args@.len() - i,
        _ => 0,
    }
}

/// The arguments of a clause; empty for an atom or a variable.
pub open spec fn clause_args(t: Term) -> Seq<Term> {
    match t {
        Term::Clause { functor, args } => args@,
        _ => Seq::empty(),
    }
}

} // verus!
