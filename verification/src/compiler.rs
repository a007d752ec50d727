use vstd::prelude::*;
use vstd::string::StringExecFns;

use crate::alloc_table::table_view;
use crate::alloc_table::AllocTable;
use crate::alloc_table::empty_table;
use crate::ast::args_remaining;
use crate::ast::clause_args;
use crate::ast::Term;
use crate::pool::pool_wf;
use crate::pool::spec_intern;
use crate::pool::Pool;
use crate::Atom;
use crate::CompilerError;
use crate::Reg;

verus! {

/// One abstract-machine instruction. The `PutStructure`/`SetVariable`/
/// `SetValue` family builds a query term; the `GetStructure`/`UnifyVariable`/
/// `UnifyValue` family is its structural dual, reserved for program-clause
/// compilation.
#[derive(Debug, Clone, Copy, PartialEq, Eq)]
pub enum Instruction {
    PutStructure { functor: Atom, arity: Reg, reg: Reg },
    SetVariable { reg: Reg },
    SetValue { reg: Reg },
    GetStructure { functor: Atom, arity: Reg, reg: Reg },
    UnifyVariable { reg: Reg },
    UnifyValue { reg: Reg },
}

/// What the allocation pass decided for one argument position: a variable
/// (with its id and its register, fresh or reused) or a subterm (atom or
/// nested structure) with the register reserved for building it.
#[derive(Debug, Clone, Copy, PartialEq, Eq)]
pub enum ArgSlot {
    Var { vid: Atom, reg: Reg },
    Sub { reg: Reg },
}

/// The register an argument position was given.
pub open spec fn slot_reg(p: ArgSlot) -> Reg {
    match p {
        ArgSlot::Var { vid, reg } => reg,
        ArgSlot::Sub { reg } => reg,
    }
}

/// The decimal digit `d` as a character; `d` must be below ten.
pub open spec fn dec_digit(d: int) -> char {
    if d == 0 {
        '0'
    } else if d == 1 {
        '1'
    } else if d == 2 {
        '2'
    } else if d == 3 {
        '3'
    } else if d == 4 {
        '4'
    } else if d == 5 {
        '5'
    } else if d == 6 {
        '6'
    } else if d == 7 {
        '7'
    } else if d == 8 {
        '8'
    } else {
        '9'
    }
}

/// `n` written in decimal, most significant digit first, no leading zeros
/// (a bare `0` for zero).
pub open spec fn dec_str(n: nat) -> Seq<char>
    decreases n,
{
    if n < 10 {
        seq![dec_digit(n as int)]
    } else {
        dec_str(n / 10).push(dec_digit((n % 10) as int))
    }
}

/// The one-instruction rendering contract: opcode name, then for the
/// structure opcodes the functor's text and its arity, then the register,
/// printed 1-based (`X{reg+1}`) to match conventional register notation.
/// Meaningful only when the instruction's functor id resolves in `pool`
/// (see [`renderable`]).
pub open spec fn spec_render(instr: Instruction, pool: Seq<Seq<char>>) -> Seq<char> {
    match instr {
        Instruction::PutStructure { functor, arity, reg } => "put_structure "@ + pool[
            functor as int
        ] + "/"@ + dec_str(arity as nat) + ", X"@ + dec_str(reg as nat + 1),
        Instruction::SetVariable { reg } => "set_variable X"@ + dec_str(reg as nat + 1),
        Instruction::SetValue { reg } => "set_value X"@ + dec_str(reg as nat + 1),
        Instruction::GetStructure { functor, arity, reg } => "get_structure "@ + pool[
            functor as int
        ] + "/"@ + dec_str(arity as nat) + ", X"@ + dec_str(reg as nat + 1),
        Instruction::UnifyVariable { reg } => "unify_variable X"@ + dec_str(reg as nat + 1),
        Instruction::UnifyValue { reg } => "unify_value X"@ + dec_str(reg as nat + 1),
    }
}

/// Whether every symbol id the instruction mentions was issued by `pool`.
pub open spec fn renderable(instr: Instruction, pool: Seq<Seq<char>>) -> bool {
    match instr {
        Instruction::PutStructure { functor, arity, reg } => functor < pool.len(),
        Instruction::GetStructure { functor, arity, reg } => functor < pool.len(),
        _ => true,
    }
}

/// Append one decimal digit, as [`dec_digit`] spells it.
fn push_digit(out: &mut String, d: u16)
    requires
        d < 10,
    ensures
        final(out)@ == old(out)@ + seq![dec_digit(d as int)],
{
    let s: &str = if d == 0 {
        "0"
    } else if d == 1 {
        "1"
    } else if d == 2 {
        "2"
    } else if d == 3 {
        "3"
    } else if d == 4 {
        "4"
    } else if d == 5 {
        "5"
    } else if d == 6 {
        "6"
    } else if d == 7 {
        "7"
    } else if d == 8 {
        "8"
    } else {
        "9"
    };
    proof {
        reveal_strlit("0");
        reveal_strlit("1");
        reveal_strlit("2");
        reveal_strlit("3");
        reveal_strlit("4");
        reveal_strlit("5");
        reveal_strlit("6");
        reveal_strlit("7");
        reveal_strlit("8");
        reveal_strlit("9");
        assert(s@ =~= seq![dec_digit(d as int)]);
    }
    out.append(s);
}

/// Append `n` in decimal, as [`dec_str`] spells it.
fn push_dec(out: &mut String, n: u16)
    ensures
        final(out)@ == old(out)@ + dec_str(n as nat),
    decreases n,
{
    if n < 10 {
        push_digit(out, n);
    } else {
        push_dec(out, n / 10);
        push_digit(out, n % 10);
        proof {
            assert(old(out)@ + dec_str((n / 10) as nat) + seq![dec_digit((n % 10) as int)]
                =~= old(out)@ + dec_str(n as nat));
        }
    }
}

impl Instruction {
    /// Render this instruction, resolving its functor id through `symbols`.
    /// Fails with `UnknownSymbol` exactly when the id was never issued by
    /// that pool; no compiler state is touched.
    pub fn fmt(&self, symbols: &Pool) -> (r: Result<String, CompilerError>)
        ensures
            match r {
                Ok(s) => renderable(*self, symbols@) && s@ == spec_render(*self, symbols@),
                Err(e) => e == CompilerError::UnknownSymbol && !renderable(*self, symbols@),
            },
    {
        let mut out = String::new();
        match self {
            Instruction::PutStructure { functor, arity, reg } => {
                let name = match symbols.resolve(*functor) {
                    Some(name) => name,
                    None => {
                        return Err(CompilerError::UnknownSymbol);
                    },
                };
                out.append("put_structure ");
                out.append(name.as_str());
                out.append("/");
                push_dec(&mut out, *arity as u16);
                out.append(", X");
                push_dec(&mut out, *reg as u16 + 1);
            },
            Instruction::SetVariable { reg } => {
                out.append("set_variable X");
                push_dec(&mut out, *reg as u16 + 1);
            },
            Instruction::SetValue { reg } => {
                out.append("set_value X");
                push_dec(&mut out, *reg as u16 + 1);
            },
            Instruction::GetStructure { functor, arity, reg } => {
                let name = match symbols.resolve(*functor) {
                    Some(name) => name,
                    None => {
                        return Err(CompilerError::UnknownSymbol);
                    },
                };
                out.append("get_structure ");
                out.append(name.as_str());
                out.append("/");
                push_dec(&mut out, *arity as u16);
                out.append(", X");
                push_dec(&mut out, *reg as u16 + 1);
            },
            Instruction::UnifyVariable { reg } => {
                out.append("unify_variable X");
                push_dec(&mut out, *reg as u16 + 1);
            },
            Instruction::UnifyValue { reg } => {
                out.append("unify_value X");
                push_dec(&mut out, *reg as u16 + 1);
            },
        }
        proof {
            assert(out@ =~= spec_render(*self, symbols@));
        }
        Ok(out)
    }
}

/// The state a compilation threads along: the symbol pool, the variable
/// allocation table, the highest register reserved so far, and the emitted
/// code.
pub ghost struct CState {
    pub pool: Seq<Seq<char>>,
    pub allocs: Map<Atom, (Reg, bool)>,
    pub base: Reg,
    pub code: Seq<Instruction>,
}

/// The allocation pass, one argument: a new variable is interned and given
/// the next register; a variable seen before reuses its register; an atom or
/// nested structure reserves the next register, where it will be built.
pub open spec fn spec_alloc_one(st: CState, arg: Term) -> Result<(CState, ArgSlot), CompilerError> {
    match arg {
        Term::Variable(name) => match spec_intern(st.pool, name@) {
            Err(e) => Err(e),
            Ok((pool1, vid)) => if st.allocs.contains_key(vid) {
                Ok(
                    (
                        CState { pool: pool1, allocs: st.allocs, base: st.base, code: st.code },
                        ArgSlot::Var { vid, reg: st.allocs[vid].0 },
                    ),
                )
            } else if st.base < 255 {
                let r = (st.base + 1) as Reg;
                Ok(
                    (
                        CState {
                            pool: pool1,
                            allocs: st.allocs.insert(vid, (r, false)),
                            base: r,
                            code: st.code,
                        },
                        ArgSlot::Var { vid, reg: r },
                    ),
                )
            } else {
                Err(CompilerError::RegisterOverflow)
            },
        },
        _ => if st.base < 255 {
            let r = (st.base + 1) as Reg;
            Ok(
                (
                    CState { pool: st.pool, allocs: st.allocs, base: r, code: st.code },
                    ArgSlot::Sub { reg: r },
                ),
            )
        } else {
            Err(CompilerError::RegisterOverflow)
        },
    }
}

/// The allocation pass over `args[i..]`, left to right, returning the state
/// after the pass and one slot per argument.
pub open spec fn spec_alloc_args(st: CState, args: Seq<Term>, i: int) -> Result<
    (CState, Seq<ArgSlot>),
    CompilerError,
>
    decreases args.len() - i,
{
    if i < 0 || i >= args.len() {
        Ok((st, Seq::empty()))
    } else {
        match spec_alloc_one(st, args[i]) {
            Err(e) => Err(e),
            Ok((st1, p)) => match spec_alloc_args(st1, args, i + 1) {
                Err(e) => Err(e),
                Ok((st2, ps)) => Ok((st2, seq![p] + ps)),
            },
        }
    }
}

/// The emission pass over this level's argument positions, after the level's
/// own `PutStructure` is out: a variable materialized for the first time
/// anywhere in this compilation gets `SetVariable` and is marked seen; a
/// variable already seen, and every built subterm, gets `SetValue`.
pub open spec fn spec_emit_args(st: CState, slots: Seq<ArgSlot>, i: int) -> CState
    decreases slots.len() - i,
{
    if i < 0 || i >= slots.len() {
        st
    } else {
        let st1 = match slots[i] {
            ArgSlot::Var { vid, reg } => if st.allocs.contains_key(vid) && st.allocs[vid].1 {
                CState {
                    pool: st.pool,
                    allocs: st.allocs,
                    base: st.base,
                    code: st.code.push(Instruction::SetValue { reg }),
                }
            } else {
                CState {
                    pool: st.pool,
                    allocs: st.allocs.insert(vid, (reg, true)),
                    base: st.base,
                    code: st.code.push(Instruction::SetVariable { reg }),
                }
            },
            ArgSlot::Sub { reg } => CState {
                pool: st.pool,
                allocs: st.allocs,
                base: st.base,
                code: st.code.push(Instruction::SetValue { reg }),
            },
        };
        spec_emit_args(st1, slots, i + 1)
    }
}

/// Compile one subterm (atom or nested structure) into the register reserved
/// for it. A bare variable argument is not a subterm and compiles to nothing
/// here; its instruction comes from its containing level's emission pass.
pub open spec fn spec_sub(st: CState, t: Term, reg: Reg) -> Result<CState, CompilerError>
    decreases t, 3int, 0int,
{
    match t {
        Term::Atom(name) => match spec_intern(st.pool, name@) {
            Err(e) => Err(e),
            Ok((pool1, fid)) => Ok(
                CState {
                    pool: pool1,
                    allocs: st.allocs,
                    base: st.base,
                    code: st.code.push(
                        Instruction::PutStructure { functor: fid, arity: 0, reg },
                    ),
                },
            ),
        },
        Term::Variable(_) => Ok(st),
        Term::Clause { functor, args } => if args@.len() > 255 {
            Err(CompilerError::RegisterOverflow)
        } else {
            match spec_intern(st.pool, functor@) {
                Err(e) => Err(e),
                Ok((pool1, fid)) => spec_level_allocated(
                    CState { pool: pool1, allocs: st.allocs, base: st.base, code: st.code },
                    t,
                    reg,
                    fid,
                    Seq::empty(),
                    0,
                ),
            }
        },
    }
}

/// A clause level whose functor is already interned, with the allocation pass
/// still to run from argument `i` on; `slots` holds the decisions for the
/// arguments before `i`.
pub open spec fn spec_level_allocated(
    st: CState,
    t: Term,
    reg: Reg,
    fid: Atom,
    slots: Seq<ArgSlot>,
    i: int,
) -> Result<CState, CompilerError>
    decreases t, 2int, 0int,
{
    match t {
        Term::Clause { functor, args } => match spec_alloc_args(st, args@, i) {
            Err(e) => Err(e),
            Ok((st2, ps)) => spec_level_emit(st2, t, reg, fid, slots + ps),
        },
        _ => Err(CompilerError::RegisterOverflow),
    }
}

/// A clause level after its allocation pass: compile every argument subterm
/// (descent), then emit this level's `PutStructure` and its argument
/// instructions.
pub open spec fn spec_level_emit(
    st: CState,
    t: Term,
    reg: Reg,
    fid: Atom,
    slots: Seq<ArgSlot>,
) -> Result<CState, CompilerError>
    decreases t, 1int, 0int,
{
    match t {
        Term::Clause { functor, args } => match spec_children(st, t, slots, 0) {
            Err(e) => Err(e),
            Ok(st3) => Ok(
                spec_emit_args(
                    CState {
                        pool: st3.pool,
                        allocs: st3.allocs,
                        base: st3.base,
                        code: st3.code.push(
                            Instruction::PutStructure {
                                functor: fid,
                                arity: args@.len() as Reg,
                                reg,
                            },
                        ),
                    },
                    slots,
                    0,
                ),
            ),
        },
        _ => Err(CompilerError::RegisterOverflow),
    }
}

/// Descent over a clause's arguments from index `i` on: each subterm is fully
/// compiled, in left-to-right order, into the register its slot reserved,
/// before the clause's own instructions are emitted.
pub open spec fn spec_children(st: CState, t: Term, slots: Seq<ArgSlot>, i: int) -> Result<
    CState,
    CompilerError,
>
    decreases t, 0int, args_remaining(t, i),
{
    match t {
        Term::Clause { functor, args } => if i < 0 || i >= args@.len() || i >= slots.len() {
            Ok(st)
        } else {
            match spec_sub(st, args@[i], slot_reg(slots[i])) {
                Err(e) => Err(e),
                Ok(st1) => spec_children(st1, t, slots, i + 1),
            }
        },
        _ => Ok(st),
    }
}

/// Compiling one whole query term against a pool, starting from a fresh
/// allocation table, register counter and instruction buffer. A bare atom
/// becomes `PutStructure{name, 0, 0}`; a bare variable becomes
/// `SetVariable{0}` (its name is still interned); a structure runs the
/// clause-level procedure with register 0.
pub open spec fn spec_query(pool: Seq<Seq<char>>, t: Term) -> Result<CState, CompilerError> {
    let st0 = CState {
        pool,
        allocs: Map::<Atom, (Reg, bool)>::empty(),
        base: 0,
        code: Seq::empty(),
    };
    match t {
        Term::Variable(name) => match spec_intern(pool, name@) {
            Err(e) => Err(e),
            Ok((pool1, _vid)) => Ok(
                CState {
                    pool: pool1,
                    allocs: st0.allocs,
                    base: 0,
                    code: seq![Instruction::SetVariable { reg: 0 }],
                },
            ),
        },
        _ => spec_sub(st0, t, 0),
    }
}

/// The allocation pass keeps the pool well formed, only appends to it, never
/// lowers the register counter, and emits nothing.
pub proof fn lemma_alloc_one_ok(st: CState, arg: Term)
    requires
        pool_wf(st.pool),
    ensures
        spec_alloc_one(st, arg) matches Ok((st1, p)) ==> {
            &&& pool_wf(st1.pool)
            &&& st.pool.is_prefix_of(st1.pool)
            &&& st.base <= st1.base
            &&& st1.code == st.code
        },
{
    crate::pool::lemma_prefix_refl(st.pool);
    if let Term::Variable(name) = arg {
        crate::pool::lemma_spec_intern_extends(st.pool, name@);
    }
}

/// `lemma_alloc_one_ok`, over a whole argument list; also: one slot comes
/// back per argument.
pub proof fn lemma_alloc_args_ok(st: CState, args: Seq<Term>, i: int)
    requires
        pool_wf(st.pool),
        0 <= i <= args.len(),
    ensures
        spec_alloc_args(st, args, i) matches Ok((st2, ps)) ==> {
            &&& pool_wf(st2.pool)
            &&& st.pool.is_prefix_of(st2.pool)
            &&& st.base <= st2.base
            &&& st2.code == st.code
            &&& ps.len() == args.len() - i
        },
    decreases args.len() - i,
{
    crate::pool::lemma_prefix_refl(st.pool);
    if i < args.len() {
        lemma_alloc_one_ok(st, args[i]);
        if let Ok((st1, _p)) = spec_alloc_one(st, args[i]) {
            lemma_alloc_args_ok(st1, args, i + 1);
            if let Ok((st2, _ps)) = spec_alloc_args(st1, args, i + 1) {
                crate::pool::lemma_prefix_trans(st.pool, st1.pool, st2.pool);
            }
        }
    }
}

/// The emission pass touches only the code and the seen flags: pool and
/// register counter come through unchanged.
pub proof fn lemma_emit_args_state(st: CState, slots: Seq<ArgSlot>, i: int)
    ensures
        spec_emit_args(st, slots, i).pool == st.pool,
        spec_emit_args(st, slots, i).base == st.base,
        st.code.is_prefix_of(spec_emit_args(st, slots, i).code),
    decreases slots.len() - i,
{
    crate::pool::lemma_prefix_refl(st.code);
    if 0 <= i < slots.len() {
        let st1 = match slots[i] {
            ArgSlot::Var { vid, reg } => if st.allocs.contains_key(vid) && st.allocs[vid].1 {
                CState {
                    pool: st.pool,
                    allocs: st.allocs,
                    base: st.base,
                    code: st.code.push(Instruction::SetValue { reg }),
                }
            } else {
                CState {
                    pool: st.pool,
                    allocs: st.allocs.insert(vid, (reg, true)),
                    base: st.base,
                    code: st.code.push(Instruction::SetVariable { reg }),
                }
            },
            ArgSlot::Sub { reg } => CState {
                pool: st.pool,
                allocs: st.allocs,
                base: st.base,
                code: st.code.push(Instruction::SetValue { reg }),
            },
        };
        assert(st.code.is_prefix_of(st1.code)) by {
            assert(st.code =~= st1.code.subrange(0, st.code.len() as int));
        }
        lemma_emit_args_state(st1, slots, i + 1);
        crate::pool::lemma_prefix_trans(
            st.code,
            st1.code,
            spec_emit_args(st1, slots, i + 1).code,
        );
    }
}

/// Compiling a subterm keeps the pool well formed, only appends to it, and
/// never lowers the register counter.
pub proof fn lemma_sub_ok(st: CState, t: Term, reg: Reg)
    requires
        pool_wf(st.pool),
    ensures
        spec_sub(st, t, reg) matches Ok(st1) ==> {
            &&& pool_wf(st1.pool)
            &&& st.pool.is_prefix_of(st1.pool)
            &&& st.base <= st1.base
            &&& st.code.is_prefix_of(st1.code)
        },
    decreases t, 3int, 0int,
{
    crate::pool::lemma_prefix_refl(st.pool);
    crate::pool::lemma_prefix_refl(st.code);
    match t {
        Term::Atom(name) => {
            crate::pool::lemma_spec_intern_extends(st.pool, name@);
            if let Ok((pool1, fid)) = spec_intern(st.pool, name@) {
                let pushed = st.code.push(
                    Instruction::PutStructure { functor: fid, arity: 0, reg },
                );
                assert(st.code.is_prefix_of(pushed)) by {
                    assert(st.code =~= pushed.subrange(0, st.code.len() as int));
                }
            }
        },
        Term::Variable(_) => {},
        Term::Clause { functor, args } => {
            if args@.len() <= 255 {
                crate::pool::lemma_spec_intern_extends(st.pool, functor@);
                if let Ok((pool1, fid)) = spec_intern(st.pool, functor@) {
                    let sti = CState { pool: pool1, allocs: st.allocs, base: st.base, code: st.code };
                    lemma_level_allocated_ok(sti, t, reg, fid, Seq::empty(), 0);
                    if let Ok(st1) = spec_level_allocated(sti, t, reg, fid, Seq::empty(), 0) {
                        crate::pool::lemma_prefix_trans(st.pool, pool1, st1.pool);
                    }
                }
            }
        },
    }
}

/// `lemma_sub_ok` for a level whose allocation pass is still to run.
pub proof fn lemma_level_allocated_ok(
    st: CState,
    t: Term,
    reg: Reg,
    fid: Atom,
    slots: Seq<ArgSlot>,
    i: int,
)
    requires
        pool_wf(st.pool),
        0 <= i,
    ensures
        spec_level_allocated(st, t, reg, fid, slots, i) matches Ok(st1) ==> {
            &&& pool_wf(st1.pool)
            &&& st.pool.is_prefix_of(st1.pool)
            &&& st.base <= st1.base
            &&& st.code.is_prefix_of(st1.code)
        },
    decreases t, 2int, 0int,
{
    crate::pool::lemma_prefix_refl(st.pool);
    crate::pool::lemma_prefix_refl(st.code);
    if let Term::Clause { functor, args } = t {
        if i <= args@.len() {
            lemma_alloc_args_ok(st, args@, i);
            if let Ok((st2, ps)) = spec_alloc_args(st, args@, i) {
                lemma_level_emit_ok(st2, t, reg, fid, slots + ps);
                if let Ok(st1) = spec_level_emit(st2, t, reg, fid, slots + ps) {
                    crate::pool::lemma_prefix_trans(st.pool, st2.pool, st1.pool);
                    crate::pool::lemma_prefix_trans(st.code, st2.code, st1.code);
                }
            }
        } else {
            lemma_alloc_args_oob(st, args@, i);
            lemma_level_emit_ok(st, t, reg, fid, slots + Seq::empty());
        }
    }
}

/// An allocation pass that starts past the end does nothing.
pub proof fn lemma_alloc_args_oob(st: CState, args: Seq<Term>, i: int)
    requires
        i > args.len() || i < 0,
    ensures
        spec_alloc_args(st, args, i) == Ok::<(CState, Seq<ArgSlot>), CompilerError>(
            (st, Seq::<ArgSlot>::empty()),
        ),
{
}

/// `lemma_sub_ok` for a level whose allocation pass has run.
pub proof fn lemma_level_emit_ok(st: CState, t: Term, reg: Reg, fid: Atom, slots: Seq<ArgSlot>)
    requires
        pool_wf(st.pool),
    ensures
        spec_level_emit(st, t, reg, fid, slots) matches Ok(st1) ==> {
            &&& pool_wf(st1.pool)
            &&& st.pool.is_prefix_of(st1.pool)
            &&& st.base <= st1.base
            &&& st.code.is_prefix_of(st1.code)
        },
    decreases t, 1int, 0int,
{
    crate::pool::lemma_prefix_refl(st.code);
    if let Term::Clause { functor, args } = t {
        lemma_children_ok(st, t, slots, 0);
        if let Ok(st3) = spec_children(st, t, slots, 0) {
            let st4 = CState {
                pool: st3.pool,
                allocs: st3.allocs,
                base: st3.base,
                code: st3.code.push(
                    Instruction::PutStructure { functor: fid, arity: args@.len() as Reg, reg },
                ),
            };
            lemma_emit_args_state(st4, slots, 0);
            assert(st3.code.is_prefix_of(st4.code)) by {
                assert(st3.code =~= st4.code.subrange(0, st3.code.len() as int));
            }
            crate::pool::lemma_prefix_trans(st.code, st3.code, st4.code);
            crate::pool::lemma_prefix_trans(st.code, st4.code, spec_emit_args(st4, slots, 0).code);
        }
    }
}

/// `lemma_sub_ok` for the descent over a clause's arguments.
pub proof fn lemma_children_ok(st: CState, t: Term, slots: Seq<ArgSlot>, i: int)
    requires
        pool_wf(st.pool),
    ensures
        spec_children(st, t, slots, i) matches Ok(st1) ==> {
            &&& pool_wf(st1.pool)
            &&& st.pool.is_prefix_of(st1.pool)
            &&& st.base <= st1.base
            &&& st.code.is_prefix_of(st1.code)
        },
    decreases t, 0int, args_remaining(t, i),
{
    crate::pool::lemma_prefix_refl(st.pool);
    crate::pool::lemma_prefix_refl(st.code);
    if let Term::Clause { functor, args } = t {
        if 0 <= i && i < args@.len() && i < slots.len() {
            lemma_sub_ok(st, args@[i], slot_reg(slots[i]));
            if let Ok(stn) = spec_sub(st, args@[i], slot_reg(slots[i])) {
                lemma_children_ok(stn, t, slots, i + 1);
                if let Ok(st1) = spec_children(stn, t, slots, i + 1) {
                    crate::pool::lemma_prefix_trans(st.pool, stn.pool, st1.pool);
                    crate::pool::lemma_prefix_trans(st.code, stn.code, st1.code);
                }
            }
        }
    }
}

/// One step of the allocation pass, seen from the level procedure: handling
/// argument `i` either fails, or moves the pass to `i + 1` with the new slot
/// recorded.
pub proof fn lemma_level_allocated_step(
    st: CState,
    t: Term,
    reg: Reg,
    fid: Atom,
    slots: Seq<ArgSlot>,
    i: int,
)
    requires
        t is Clause,
        0 <= i < clause_args(t).len(),
    ensures
        match spec_alloc_one(st, clause_args(t)[i]) {
            Ok((st1, p)) => spec_level_allocated(st, t, reg, fid, slots, i)
                == spec_level_allocated(st1, t, reg, fid, slots.push(p), i + 1),
            Err(e) => spec_level_allocated(st, t, reg, fid, slots, i) == Err::<
                CState,
                CompilerError,
            >(e),
        },
{
    let args = clause_args(t);
    match spec_alloc_one(st, args[i]) {
        Ok((st1, p)) => {
            match spec_alloc_args(st1, args, i + 1) {
                Ok((st2, ps)) => {
                    assert(slots + (seq![p] + ps) =~= slots.push(p) + ps);
                },
                Err(_) => {},
            }
        },
        Err(_) => {},
    }
}

/// The compiler: owns the symbol pool (shared across compilations if the
/// caller reuses it), and a per-compilation variable allocation table and
/// instruction buffer, both reset at the start of every `compile_query`.
pub struct Compiler {
    symbols: Pool,
    allocs: AllocTable,
    program: Vec<Instruction>,
}

impl Compiler {
    /// The names this compiler's pool has interned.
    pub closed spec fn pool(self) -> Seq<Seq<char>> {
        self.symbols@
    }

    /// The instructions emitted by the last compilation.
    pub closed spec fn code(self) -> Seq<Instruction> {
        self.program@
    }

    /// The variable allocation table of the last compilation.
    pub closed spec fn vars(self) -> Map<Atom, (Reg, bool)> {
        table_view(self.allocs)
    }

    /// The pool behind a well-formed compiler holds distinct names.
    pub open spec fn wf(self) -> bool {
        pool_wf(self.pool())
    }

    /// This compiler's state as the model threads it, with the running
    /// register counter `base` alongside.
    pub open spec fn cstate(self, base: Reg) -> CState {
        CState { pool: self.pool(), allocs: self.vars(), base, code: self.code() }
    }

    /// A compiler with an empty pool, an empty allocation table and no code.
    pub fn new() -> (r: Compiler)
        ensures
            r.wf(),
            r.pool() == Seq::<Seq<char>>::empty(),
            r.code() == Seq::<Instruction>::empty(),
            r.vars() == empty_table(),
    {
        let r = Compiler { symbols: Pool::new(), allocs: AllocTable::new(), program: Vec::new() };
        proof {
            assert(r.code() =~= Seq::<Instruction>::empty());
        }
        r
    }

    /// The symbol pool, for resolving the ids in emitted instructions.
    pub fn symbols(&self) -> (r: &Pool)
        ensures
            r@ == self.pool(),
    {
        &self.symbols
    }

    /// The instructions of the last compilation.
    pub fn program(&self) -> (r: &Vec<Instruction>)
        ensures
            r@ == self.code(),
    {
        &self.program
    }

    /// Intern a name into this compiler's pool.
    fn intern(&mut self, name: &String) -> (r: Result<Atom, CompilerError>)
        requires
            old(self).wf(),
        ensures
            final(self).wf(),
            final(self).code() == old(self).code(),
            final(self).vars() == old(self).vars(),
            match spec_intern(old(self).pool(), name@) {
                Ok((p, id)) => r == Ok::<Atom, CompilerError>(id) && final(self).pool() == p,
                Err(e) => r == Err::<Atom, CompilerError>(e) && final(self).pool() == old(
                    self,
                ).pool(),
            },
    {
        self.symbols.intern(name)
    }

    /// Clear the per-compilation state: the allocation table and the
    /// instruction buffer. The pool is kept; it only grows.
    fn reset(&mut self)
        ensures
            final(self).pool() == old(self).pool(),
            final(self).code() == Seq::<Instruction>::empty(),
            final(self).vars() == empty_table(),
    {
        self.allocs.clear();
        self.program.clear();
        proof {
            assert(self.code() =~= Seq::<Instruction>::empty());
        }
    }

    /// Compile one subterm into its reserved register, starting the register
    /// counter at `base`; on success the new counter comes back. Refines
    /// [`spec_sub`] exactly.
    fn compile_sub(&mut self, t: &Term, reg: Reg, base: Reg) -> (r: Result<Reg, CompilerError>)
        requires
            old(self).wf(),
        ensures
            final(self).wf(),
            match spec_sub(old(self).cstate(base), *t, reg) {
                Ok(st) => r == Ok::<Reg, CompilerError>(st.base) && final(self).cstate(st.base)
                    == st,
                Err(e) => r == Err::<Reg, CompilerError>(e) && old(self).pool().is_prefix_of(
                    final(self).pool(),
                ),
            },
        decreases *t,
    {
        proof {
            crate::pool::lemma_prefix_refl(self.pool());
        }
        match t {
            Term::Atom(name) => {
                let fid = match self.intern(name) {
                    Ok(fid) => fid,
                    Err(e) => {
                        return Err(e);
                    },
                };
                self.program.push(Instruction::PutStructure { functor: fid, arity: 0, reg });
                Ok(base)
            },
            Term::Variable(_) => Ok(base),
            Term::Clause { functor, args } => {
                if args.len() > 255 {
                    return Err(CompilerError::RegisterOverflow);
                }
                let ghost st0 = old(self).cstate(base);
                let fid = match self.intern(functor) {
                    Ok(fid) => fid,
                    Err(e) => {
                        return Err(e);
                    },
                };
                let ghost sti = self.cstate(base);
                assert(spec_sub(st0, *t, reg) == spec_level_allocated(
                    sti,
                    *t,
                    reg,
                    fid,
                    Seq::<ArgSlot>::empty(),
                    0,
                ));
                // Allocation pass: reserve registers left to right.
                let mut b: Reg = base;
                let mut slots: Vec<ArgSlot> = Vec::new();
                let mut i: usize = 0;
                while i < args.len()
                    invariant
                        self.wf(),
                        st0 == old(self).cstate(base),
                        old(self).pool().is_prefix_of(self.pool()),
                        i <= args.len(),
                        args.len() <= 255,
                        slots@.len() == i as int,
                        *t == (Term::Clause { functor: *functor, args: *args }),
                        spec_sub(st0, *t, reg) == spec_level_allocated(
                            self.cstate(b),
                            *t,
                            reg,
                            fid,
                            slots@,
                            i as int,
                        ),
                    decreases args.len() - i,
                {
                    let ghost cur = self.cstate(b);
                    proof {
                        lemma_level_allocated_step(cur, *t, reg, fid, slots@, i as int);
                        assert(clause_args(*t)[i as int] == args@[i as int]);
                    }
                    match &args[i] {
                        Term::Variable(vname) => {
                            let vid = match self.intern(vname) {
                                Ok(vid) => vid,
                                Err(e) => {
                                    proof {
                                        assert(spec_alloc_one(cur, args@[i as int]) == Err::<
                                            (CState, ArgSlot),
                                            CompilerError,
                                        >(e));
                                        assert(spec_sub(st0, *t, reg) == Err::<
                                            CState,
                                            CompilerError,
                                        >(e));
                                        assert(old(self).pool().is_prefix_of(self.pool()));
                                    }
                                    return Err(e);
                                },
                            };
                            match self.allocs.get(vid) {
                                Some(entry) => {
                                    slots.push(ArgSlot::Var { vid, reg: entry.0 });
                                },
                                None => {
                                    if b >= 255 {
                                        proof {
                                            crate::pool::lemma_spec_intern_extends(
                                                cur.pool,
                                                vname@,
                                            );
                                            crate::pool::lemma_prefix_trans(
                                                old(self).pool(),
                                                cur.pool,
                                                self.pool(),
                                            );
                                            assert(spec_alloc_one(cur, args@[i as int]) == Err::<
                                                (CState, ArgSlot),
                                                CompilerError,
                                            >(CompilerError::RegisterOverflow));
                                            assert(spec_sub(st0, *t, reg) == Err::<
                                                CState,
                                                CompilerError,
                                            >(CompilerError::RegisterOverflow));
                                            assert(old(self).pool().is_prefix_of(self.pool()));
                                        }
                                        return Err(CompilerError::RegisterOverflow);
                                    }
                                    b = b + 1;
                                    self.allocs.insert(vid, b, false);
                                    slots.push(ArgSlot::Var { vid, reg: b });
                                },
                            }
                        },
                        _ => {
                            if b >= 255 {
                                proof {
                                    assert(spec_alloc_one(cur, args@[i as int]) == Err::<
                                        (CState, ArgSlot),
                                        CompilerError,
                                    >(CompilerError::RegisterOverflow));
                                    assert(spec_sub(st0, *t, reg) == Err::<
                                        CState,
                                        CompilerError,
                                    >(CompilerError::RegisterOverflow));
                                    assert(old(self).pool().is_prefix_of(self.pool()));
                                }
                                return Err(CompilerError::RegisterOverflow);
                            }
                            b = b + 1;
                            slots.push(ArgSlot::Sub { reg: b });
                        },
                    }
                    proof {
                        crate::pool::lemma_prefix_trans(old(self).pool(), cur.pool, self.pool());
                    }
                    i = i + 1;
                }
                let ghost st2 = self.cstate(b);
                proof {
                    assert(spec_alloc_args(st2, args@, i as int) == Ok::<
                        (CState, Seq<ArgSlot>),
                        CompilerError,
                    >((st2, Seq::<ArgSlot>::empty())));
                    assert(slots@ + Seq::<ArgSlot>::empty() =~= slots@);
                    assert(spec_sub(st0, *t, reg) == spec_level_emit(st2, *t, reg, fid, slots@));
                }
                // Descent: fully compile every argument subterm before this
                // level emits anything.
                let mut i: usize = 0;
                while i < args.len()
                    invariant
                        self.wf(),
                        st0 == old(self).cstate(base),
                        old(self).pool().is_prefix_of(self.pool()),
                        i <= args.len(),
                        slots@.len() == args@.len(),
                        args.len() <= 255,
                        *t == (Term::Clause { functor: *functor, args: *args }),
                        spec_sub(st0, *t, reg) == spec_level_emit(st2, *t, reg, fid, slots@),
                        spec_children(st2, *t, slots@, 0) == spec_children(
                            self.cstate(b),
                            *t,
                            slots@,
                            i as int,
                        ),
                    decreases args.len() - i,
                {
                    let ghost cur = self.cstate(b);
                    let s = slots[i];
                    let sreg: Reg = match s {
                        ArgSlot::Var { vid: _, reg: r2 } => r2,
                        ArgSlot::Sub { reg: r2 } => r2,
                    };
                    proof {
                        assert(sreg == slot_reg(slots@[i as int]));
                        assert(decreases_to!(*t => args@[i as int]));
                    }
                    match self.compile_sub(&args[i], sreg, b) {
                        Ok(b2) => {
                            b = b2;
                        },
                        Err(e) => {
                            proof {
                                assert(spec_children(cur, *t, slots@, i as int) == Err::<
                                    CState,
                                    CompilerError,
                                >(e));
                                assert(spec_sub(st0, *t, reg) == Err::<CState, CompilerError>(e));
                                crate::pool::lemma_prefix_trans(
                                    old(self).pool(),
                                    cur.pool,
                                    self.pool(),
                                );
                                assert(old(self).pool().is_prefix_of(self.pool()));
                            }
                            return Err(e);
                        },
                    }
                    proof {
                        lemma_sub_ok(cur, args@[i as int], sreg);
                        crate::pool::lemma_prefix_trans(old(self).pool(), cur.pool, self.pool());
                    }
                    i = i + 1;
                }
                let ghost st3 = self.cstate(b);
                proof {
                    assert(spec_children(st3, *t, slots@, i as int) == Ok::<CState, CompilerError>(
                        st3,
                    ));
                }
                // Emission: this level's PutStructure, then one instruction
                // per argument position.
                self.program.push(
                    Instruction::PutStructure { functor: fid, arity: args.len() as Reg, reg },
                );
                let ghost st4 = self.cstate(b);
                proof {
                    assert(st4.code =~= st3.code.push(
                        Instruction::PutStructure { functor: fid, arity: args@.len() as Reg, reg },
                    ));
                    assert(spec_sub(st0, *t, reg) == Ok::<CState, CompilerError>(
                        spec_emit_args(st4, slots@, 0),
                    ));
                }
                let mut i: usize = 0;
                while i < slots.len()
                    invariant
                        self.wf(),
                        st0 == old(self).cstate(base),
                        old(self).pool().is_prefix_of(self.pool()),
                        i <= slots@.len(),
                        spec_sub(st0, *t, reg) == Ok::<CState, CompilerError>(
                            spec_emit_args(st4, slots@, 0),
                        ),
                        spec_emit_args(st4, slots@, 0) == spec_emit_args(
                            self.cstate(b),
                            slots@,
                            i as int,
                        ),
                    decreases slots@.len() - i,
                {
                    let s = slots[i];
                    match s {
                        ArgSlot::Var { vid, reg: vr } => {
                            match self.allocs.get(vid) {
                                Some((_r0, true)) => {
                                    self.program.push(Instruction::SetValue { reg: vr });
                                },
                                _ => {
                                    self.allocs.insert(vid, vr, true);
                                    self.program.push(Instruction::SetVariable { reg: vr });
                                },
                            }
                        },
                        ArgSlot::Sub { reg: sr } => {
                            self.program.push(Instruction::SetValue { reg: sr });
                        },
                    }
                    i = i + 1;
                }
                assert(spec_emit_args(self.cstate(b), slots@, i as int) == self.cstate(b));
                Ok(b)
            },
        }
    }

    /// Compile a query term into this compiler's instruction buffer,
    /// interning every functor and variable name of the term into the pool.
    ///
    /// The per-call allocation table and instruction buffer are reset first,
    /// so unrelated calls never leak into one another. On success the buffer
    /// holds exactly the instruction sequence [`spec_query`] gives for this
    /// term against the pool as it stood; on overflow no instructions are
    /// returned at all.
    pub fn compile_query(&mut self, term: &Term) -> (r: Result<(), CompilerError>)
        requires
            old(self).wf(),
        ensures
            final(self).wf(),
            match spec_query(old(self).pool(), *term) {
                Ok(st) => r == Ok::<(), CompilerError>(()) && final(self).pool() == st.pool
                    && final(self).code() == st.code && final(self).vars() == st.allocs,
                Err(e) => r == Err::<(), CompilerError>(e) && final(self).code()
                    == Seq::<Instruction>::empty() && old(self).pool().is_prefix_of(
                    final(self).pool(),
                ),
            },
    {
        proof {
            crate::pool::lemma_prefix_refl(self.pool());
        }
        self.reset();
        match term {
            Term::Variable(name) => {
                match self.intern(name) {
                    Err(e) => Err(e),
                    Ok(_vid) => {
                        self.program.push(Instruction::SetVariable { reg: 0 });
                        proof {
                            assert(self.code() =~= seq![Instruction::SetVariable { reg: 0 }]);
                        }
                        Ok(())
                    },
                }
            },
            _ => {
                let ghost st0 = self.cstate(0);
                assert(spec_query(old(self).pool(), *term) == spec_sub(st0, *term, 0));
                match self.compile_sub(term, 0, 0) {
                    Ok(_b) => Ok(()),
                    Err(e) => {
                        self.program.clear();
                        proof {
                            assert(self.code() =~= Seq::<Instruction>::empty());
                        }
                        Err(e)
                    },
                }
            },
        }
    }
}

} // verus!
