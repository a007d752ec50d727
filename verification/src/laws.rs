//! The laws the compiler obeys, stated over the compilation model that
//! `compile_query`'s contract pins its output to, and proved once and for
//! all.
use vstd::prelude::*;

use crate::ast::args_remaining;
use crate::ast::clause_args;
use crate::ast::Term;
use crate::compiler::spec_alloc_args;
use crate::compiler::spec_alloc_one;
use crate::compiler::spec_children;
use crate::compiler::spec_emit_args;
use crate::compiler::spec_level_allocated;
use crate::compiler::spec_level_emit;
use crate::compiler::spec_query;
use crate::compiler::spec_sub;
use crate::compiler::ArgSlot;
use crate::compiler::CState;
use crate::compiler::Compiler;
use crate::compiler::Instruction;
use crate::pool::lemma_find_in;
use crate::pool::lemma_spec_intern_extends;
use crate::pool::pool_wf;
use crate::pool::spec_intern;
use crate::Atom;
use crate::CompilerError;
use crate::Reg;

verus! {

/// Interning idempotence, first half: interning a name a second time returns
/// the id the first interning gave, and leaves the pool exactly as it was.
pub proof fn lemma_intern_idempotent(pool: Seq<Seq<char>>, name: Seq<char>)
    requires
        pool_wf(pool),
    ensures
        spec_intern(pool, name) matches Ok((p1, id)) ==> spec_intern(p1, name) == Ok::<
            (Seq<Seq<char>>, Atom),
            CompilerError,
        >((p1, id)),
{
    lemma_spec_intern_extends(pool, name);
    if let Ok((p1, id)) = spec_intern(pool, name) {
        let _k = find_again(p1, name, id);
    }
}

/// `find_in` returns exactly the index of a name a well-formed pool holds.
proof fn find_again(p: Seq<Seq<char>>, name: Seq<char>, id: Atom) -> (k: int)
    requires
        pool_wf(p),
        id < p.len(),
        p[id as int] == name,
    ensures
        k == id,
        crate::pool::find_in(p, name) == k,
{
    lemma_find_in(p, name);
    let k = crate::pool::find_in(p, name);
    if k == -1 {
        assert(p[id as int] != name);
        assert(false);
    }
    assert(p[k] == name);
    if k != id {
        assert(p[k] != p[id as int]);
        assert(false);
    }
    k
}

/// Interning idempotence, second half: two different names never share an id.
pub proof fn lemma_intern_injective(pool: Seq<Seq<char>>, a: Seq<char>, b: Seq<char>)
    requires
        pool_wf(pool),
        a != b,
    ensures
        match spec_intern(pool, a) {
            Ok((p1, ia)) => match spec_intern(p1, b) {
                Ok((p2, ib)) => ia != ib,
                Err(_) => true,
            },
            Err(_) => true,
        },
{
    lemma_spec_intern_extends(pool, a);
    if let Ok((p1, ia)) = spec_intern(pool, a) {
        lemma_spec_intern_extends(p1, b);
        if let Ok((p2, ib)) = spec_intern(p1, b) {
            lemma_find_in(p1, b);
            if crate::pool::find_in(p1, b) >= 0 {
                assert(p1[ib as int] == b);
                assert(p1[ia as int] == a);
            } else {
                assert(ib == p1.len());
            }
        }
    }
}

/// Reset isolation, and determinism under equal pools: the model a
/// compilation's outcome is pinned to reads nothing of a compiler but its
/// pool — in particular nothing of a previous call's variable allocation
/// table or instruction buffer, which `compile_query` resets. Two compilers
/// whose pools hold the same names compile any term to identical
/// instructions, registers and errors.
pub proof fn lemma_reset_isolation(c1: Compiler, c2: Compiler, t: Term)
    requires
        c1.pool() == c2.pool(),
    ensures
        spec_query(c1.pool(), t) == spec_query(c2.pool(), t),
{
}

/// A variable allocation table is consistent with register counter `base`:
/// every assigned register is one of the reserved ones, and no two distinct
/// variables share a register.
pub open spec fn allocs_wf(a: Map<Atom, (Reg, bool)>, base: Reg) -> bool {
    &&& forall|v: Atom| #[trigger] a.contains_key(v) ==> 1 <= a[v].0 <= base
    &&& forall|v1: Atom, v2: Atom|
        a.contains_key(v1) && a.contains_key(v2) && v1 != v2 ==> (#[trigger] a[v1]).0 != (
        #[trigger] a[v2]).0
}

/// The table only grows, and a variable's register, once assigned, never
/// changes (only its seen flag may).
pub open spec fn allocs_extend(a1: Map<Atom, (Reg, bool)>, a2: Map<Atom, (Reg, bool)>) -> bool {
    forall|v: Atom|
        #[trigger] a1.contains_key(v) ==> a2.contains_key(v) && a2[v].0 == a1[v].0
}

/// Every variable slot of the allocation pass resolves in the table, to the
/// register the slot carries.
pub open spec fn slots_wf(slots: Seq<ArgSlot>, a: Map<Atom, (Reg, bool)>) -> bool {
    forall|j: int|
        0 <= j < slots.len() ==> match #[trigger] slots[j] {
            ArgSlot::Var { vid, reg } => a.contains_key(vid) && a[vid].0 == reg,
            ArgSlot::Sub { reg } => true,
        }
}

/// A slot list that resolves in a table resolves in any extension of it.
pub proof fn lemma_slots_wf_mono(slots: Seq<ArgSlot>, a1: Map<Atom, (Reg, bool)>, a2: Map<
    Atom,
    (Reg, bool),
>)
    requires
        slots_wf(slots, a1),
        allocs_extend(a1, a2),
    ensures
        slots_wf(slots, a2),
{
    assert forall|j: int| 0 <= j < slots.len() implies match #[trigger] slots[j] {
        ArgSlot::Var { vid, reg } => a2.contains_key(vid) && a2[vid].0 == reg,
        ArgSlot::Sub { reg } => true,
    } by {
        match slots[j] {
            ArgSlot::Var { vid, reg } => {
                assert(a1.contains_key(vid) && a1[vid].0 == reg);
                assert(a2.contains_key(vid) && a2[vid].0 == reg);
            },
            ArgSlot::Sub { reg } => {},
        }
    }
}

/// Extending a table is transitive.
pub proof fn lemma_extend_trans(
    a: Map<Atom, (Reg, bool)>,
    b: Map<Atom, (Reg, bool)>,
    c: Map<Atom, (Reg, bool)>,
)
    requires
        allocs_extend(a, b),
        allocs_extend(b, c),
    ensures
        allocs_extend(a, c),
{
    assert forall|v: Atom| #[trigger] a.contains_key(v) implies c.contains_key(v) && c[v].0
        == a[v].0 by {
        assert(b.contains_key(v) && b[v].0 == a[v].0);
        assert(c.contains_key(v) && c[v].0 == b[v].0);
    }
}

/// One allocation step keeps the table consistent and only extends it.
pub proof fn lemma_alloc_one_wf(st: CState, arg: Term)
    requires
        allocs_wf(st.allocs, st.base),
    ensures
        spec_alloc_one(st, arg) matches Ok((st1, p)) ==> {
            &&& allocs_wf(st1.allocs, st1.base)
            &&& allocs_extend(st.allocs, st1.allocs)
            &&& st.base <= st1.base
            &&& slots_wf(seq![p], st1.allocs)
        },
{
}

/// The whole allocation pass keeps the table consistent, only extends it,
/// and hands back slots that resolve in the resulting table.
pub proof fn lemma_alloc_args_wf(st: CState, args: Seq<Term>, i: int)
    requires
        allocs_wf(st.allocs, st.base),
    ensures
        spec_alloc_args(st, args, i) matches Ok((st2, ps)) ==> {
            &&& allocs_wf(st2.allocs, st2.base)
            &&& allocs_extend(st.allocs, st2.allocs)
            &&& st.base <= st2.base
            &&& slots_wf(ps, st2.allocs)
        },
    decreases args.len() - i,
{
    if 0 <= i < args.len() {
        lemma_alloc_one_wf(st, args[i]);
        if let Ok((st1, p)) = spec_alloc_one(st, args[i]) {
            lemma_alloc_args_wf(st1, args, i + 1);
            if let Ok((st2, ps)) = spec_alloc_args(st1, args, i + 1) {
                lemma_extend_trans(st.allocs, st1.allocs, st2.allocs);
                lemma_slots_wf_mono(seq![p], st1.allocs, st2.allocs);
                let all = seq![p] + ps;
                assert forall|j: int| 0 <= j < all.len() implies match #[trigger] all[j] {
                    ArgSlot::Var { vid, reg } => st2.allocs.contains_key(vid) && st2.allocs[vid].0
                        == reg,
                    ArgSlot::Sub { reg } => true,
                } by {
                    if j == 0 {
                        assert(all[0] == p);
                        assert(slots_wf(seq![p], st2.allocs));
                        assert(seq![p][0] == p);
                    } else {
                        assert(all[j] == ps[j - 1]);
                        assert(slots_wf(ps, st2.allocs));
                    }
                }
            }
        }
    }
}

/// The emission pass keeps the table consistent and only flips seen flags:
/// registers never change, the counter never moves.
pub proof fn lemma_emit_args_wf(st: CState, slots: Seq<ArgSlot>, i: int)
    requires
        allocs_wf(st.allocs, st.base),
        slots_wf(slots, st.allocs),
    ensures
        ({
            let st1 = spec_emit_args(st, slots, i);
            &&& allocs_wf(st1.allocs, st1.base)
            &&& allocs_extend(st.allocs, st1.allocs)
            &&& st1.base == st.base
        }),
    decreases slots.len() - i,
{
    if 0 <= i < slots.len() {
        match slots[i] {
            ArgSlot::Var { vid, reg } => {
                if st.allocs.contains_key(vid) && st.allocs[vid].1 {
                    let st1 = CState {
                        pool: st.pool,
                        allocs: st.allocs,
                        base: st.base,
                        code: st.code.push(Instruction::SetValue { reg }),
                    };
                    lemma_emit_args_wf(st1, slots, i + 1);
                } else {
                    assert(st.allocs.contains_key(vid) && st.allocs[vid].0 == reg);
                    let a1 = st.allocs.insert(vid, (reg, true));
                    assert(allocs_wf(a1, st.base)) by {
                        assert forall|v: Atom| a1.contains_key(v) implies 1 <= (
                        #[trigger] a1[v]).0 <= st.base by {
                            if v != vid {
                                assert(a1[v] == st.allocs[v]);
                            }
                        }
                        assert forall|v1: Atom, v2: Atom|
                            a1.contains_key(v1) && a1.contains_key(v2) && v1 != v2 implies (
                        #[trigger] a1[v1]).0 != (#[trigger] a1[v2]).0 by {
                            assert(st.allocs.contains_key(v1) && st.allocs.contains_key(v2));
                            assert(a1[v1].0 == st.allocs[v1].0);
                            assert(a1[v2].0 == st.allocs[v2].0);
                        }
                    }
                    assert(allocs_extend(st.allocs, a1));
                    lemma_slots_wf_mono(slots, st.allocs, a1);
                    let st1 = CState {
                        pool: st.pool,
                        allocs: a1,
                        base: st.base,
                        code: st.code.push(Instruction::SetVariable { reg }),
                    };
                    lemma_emit_args_wf(st1, slots, i + 1);
                    lemma_extend_trans(st.allocs, a1, spec_emit_args(st1, slots, i + 1).allocs);
                }
            },
            ArgSlot::Sub { reg } => {
                let st1 = CState {
                    pool: st.pool,
                    allocs: st.allocs,
                    base: st.base,
                    code: st.code.push(Instruction::SetValue { reg }),
                };
                lemma_emit_args_wf(st1, slots, i + 1);
            },
        }
    }
}

/// Register uniqueness through a subterm's compilation: the table stays
/// consistent and only extends.
pub proof fn lemma_sub_wf(st: CState, t: Term, reg: Reg)
    requires
        allocs_wf(st.allocs, st.base),
    ensures
        spec_sub(st, t, reg) matches Ok(st1) ==> {
            &&& allocs_wf(st1.allocs, st1.base)
            &&& allocs_extend(st.allocs, st1.allocs)
            &&& st.base <= st1.base
        },
    decreases t, 3int, 0int,
{
    match t {
        Term::Atom(_) => {},
        Term::Variable(_) => {},
        Term::Clause { functor, args } => {
            if args@.len() <= 255 {
                if let Ok((pool1, fid)) = spec_intern(st.pool, functor@) {
                    let sti = CState { pool: pool1, allocs: st.allocs, base: st.base, code: st.code };
                    lemma_level_allocated_wf(sti, t, reg, fid, Seq::empty(), 0);
                }
            }
        },
    }
}

/// `lemma_sub_wf` for a level whose allocation pass is still to run.
pub proof fn lemma_level_allocated_wf(
    st: CState,
    t: Term,
    reg: Reg,
    fid: Atom,
    slots: Seq<ArgSlot>,
    i: int,
)
    requires
        allocs_wf(st.allocs, st.base),
        slots_wf(slots, st.allocs),
    ensures
        spec_level_allocated(st, t, reg, fid, slots, i) matches Ok(st1) ==> {
            &&& allocs_wf(st1.allocs, st1.base)
            &&& allocs_extend(st.allocs, st1.allocs)
            &&& st.base <= st1.base
        },
    decreases t, 2int, 0int,
{
    if let Term::Clause { functor, args } = t {
        lemma_alloc_args_wf(st, args@, i);
        if let Ok((st2, ps)) = spec_alloc_args(st, args@, i) {
            lemma_slots_wf_mono(slots, st.allocs, st2.allocs);
            let all = slots + ps;
            assert forall|j: int| 0 <= j < all.len() implies match #[trigger] all[j] {
                ArgSlot::Var { vid, reg } => st2.allocs.contains_key(vid) && st2.allocs[vid].0
                    == reg,
                ArgSlot::Sub { reg } => true,
            } by {
                if j < slots.len() {
                    assert(all[j] == slots[j]);
                    assert(slots_wf(slots, st2.allocs));
                } else {
                    assert(all[j] == ps[j - slots.len()]);
                    assert(slots_wf(ps, st2.allocs));
                }
            }
            lemma_level_emit_wf(st2, t, reg, fid, slots + ps);
            if let Ok(st1) = spec_level_emit(st2, t, reg, fid, slots + ps) {
                lemma_extend_trans(st.allocs, st2.allocs, st1.allocs);
            }
        }
    }
}

/// `lemma_sub_wf` for a level whose allocation pass has run.
pub proof fn lemma_level_emit_wf(st: CState, t: Term, reg: Reg, fid: Atom, slots: Seq<ArgSlot>)
    requires
        allocs_wf(st.allocs, st.base),
        slots_wf(slots, st.allocs),
    ensures
        spec_level_emit(st, t, reg, fid, slots) matches Ok(st1) ==> {
            &&& allocs_wf(st1.allocs, st1.base)
            &&& allocs_extend(st.allocs, st1.allocs)
            &&& st.base <= st1.base
        },
    decreases t, 1int, 0int,
{
    if let Term::Clause { functor, args } = t {
        lemma_children_wf(st, t, slots, 0);
        if let Ok(st3) = spec_children(st, t, slots, 0) {
            let st4 = CState {
                pool: st3.pool,
                allocs: st3.allocs,
                base: st3.base,
                code: st3.code.push(
                    Instruction::PutStructure { functor: fid, arity: args@.len() as Reg, reg },
                ),
            };
            lemma_slots_wf_mono(slots, st.allocs, st4.allocs);
            lemma_emit_args_wf(st4, slots, 0);
            lemma_extend_trans(st.allocs, st4.allocs, spec_emit_args(st4, slots, 0).allocs);
        }
    }
}

/// `lemma_sub_wf` for the descent over a clause's arguments.
pub proof fn lemma_children_wf(st: CState, t: Term, slots: Seq<ArgSlot>, i: int)
    requires
        allocs_wf(st.allocs, st.base),
        slots_wf(slots, st.allocs),
    ensures
        spec_children(st, t, slots, i) matches Ok(st1) ==> {
            &&& allocs_wf(st1.allocs, st1.base)
            &&& allocs_extend(st.allocs, st1.allocs)
            &&& st.base <= st1.base
            &&& slots_wf(slots, st1.allocs)
        },
    decreases t, 0int, args_remaining(t, i),
{
    if let Term::Clause { functor, args } = t {
        if 0 <= i && i < args@.len() && i < slots.len() {
            lemma_sub_wf(st, args@[i], crate::compiler::slot_reg(slots[i]));
            if let Ok(stn) = spec_sub(st, args@[i], crate::compiler::slot_reg(slots[i])) {
                lemma_slots_wf_mono(slots, st.allocs, stn.allocs);
                lemma_children_wf(stn, t, slots, i + 1);
                if let Ok(st1) = spec_children(stn, t, slots, i + 1) {
                    lemma_extend_trans(st.allocs, stn.allocs, st1.allocs);
                }
            }
        }
    }
}

/// Interning a name again, against any well-formed extension of the pool the
/// first interning produced, returns the same id and interns nothing.
pub proof fn lemma_intern_replay(pa: Seq<Seq<char>>, pfinal: Seq<Seq<char>>, s: Seq<char>)
    requires
        pool_wf(pa),
        pool_wf(pfinal),
        spec_intern(pa, s) is Ok,
        (spec_intern(pa, s)->Ok_0).0.is_prefix_of(pfinal),
    ensures
        spec_intern(pfinal, s) == Ok::<(Seq<Seq<char>>, Atom), CompilerError>(
            (pfinal, (spec_intern(pa, s)->Ok_0).1),
        ),
{
    lemma_spec_intern_extends(pa, s);
    let (pa1, id) = spec_intern(pa, s)->Ok_0;
    assert(pa1[id as int] == s);
    assert(pfinal[id as int] == pa1.subrange(0, pa1.len() as int)[id as int]);
    let k = find_again(pfinal, s, id);
}

/// Swapping the pool under the emission pass changes nothing else: the pass
/// never reads or writes the pool.
pub proof fn lemma_emit_replay(st: CState, pfinal: Seq<Seq<char>>, slots: Seq<ArgSlot>, i: int)
    ensures
        ({
            let e = spec_emit_args(st, slots, i);
            spec_emit_args(
                CState { pool: pfinal, allocs: st.allocs, base: st.base, code: st.code },
                slots,
                i,
            ) == CState { pool: pfinal, allocs: e.allocs, base: e.base, code: e.code }
        }),
    decreases slots.len() - i,
{
    if 0 <= i < slots.len() {
        match slots[i] {
            ArgSlot::Var { vid, reg } => {
                if st.allocs.contains_key(vid) && st.allocs[vid].1 {
                    lemma_emit_replay(
                        CState {
                            pool: st.pool,
                            allocs: st.allocs,
                            base: st.base,
                            code: st.code.push(Instruction::SetValue { reg }),
                        },
                        pfinal,
                        slots,
                        i + 1,
                    );
                } else {
                    lemma_emit_replay(
                        CState {
                            pool: st.pool,
                            allocs: st.allocs.insert(vid, (reg, true)),
                            base: st.base,
                            code: st.code.push(Instruction::SetVariable { reg }),
                        },
                        pfinal,
                        slots,
                        i + 1,
                    );
                }
            },
            ArgSlot::Sub { reg } => {
                lemma_emit_replay(
                    CState {
                        pool: st.pool,
                        allocs: st.allocs,
                        base: st.base,
                        code: st.code.push(Instruction::SetValue { reg }),
                    },
                    pfinal,
                    slots,
                    i + 1,
                );
            },
        }
    }
}

/// Replaying the allocation pass against a pool that already holds every
/// name it would intern gives the same registers, slots and ids, and interns
/// nothing.
pub proof fn lemma_alloc_args_replay(sta: CState, pfinal: Seq<Seq<char>>, args: Seq<Term>, i: int)
    requires
        pool_wf(sta.pool),
        pool_wf(pfinal),
        0 <= i,
        spec_alloc_args(sta, args, i) is Ok,
        (spec_alloc_args(sta, args, i)->Ok_0).0.pool.is_prefix_of(pfinal),
    ensures
        ({
            let (sta1, ps) = spec_alloc_args(sta, args, i)->Ok_0;
            spec_alloc_args(
                CState { pool: pfinal, allocs: sta.allocs, base: sta.base, code: sta.code },
                args,
                i,
            ) == Ok::<(CState, Seq<ArgSlot>), CompilerError>(
                (
                    CState { pool: pfinal, allocs: sta1.allocs, base: sta1.base, code: sta1.code },
                    ps,
                ),
            )
        }),
    decreases args.len() - i,
{
    if i < args.len() {
        let (st1, p) = spec_alloc_one(sta, args[i])->Ok_0;
        crate::compiler::lemma_alloc_one_ok(sta, args[i]);
        crate::compiler::lemma_alloc_args_ok(st1, args, i + 1);
        let (st2, ps) = spec_alloc_args(st1, args, i + 1)->Ok_0;
        crate::pool::lemma_prefix_trans(st1.pool, st2.pool, pfinal);
        if let Term::Variable(name) = args[i] {
            lemma_intern_replay(sta.pool, pfinal, name@);
        }
        lemma_alloc_args_replay(st1, pfinal, args, i + 1);
    }
}

/// Replaying a subterm's compilation against a pool that already holds every
/// name it interned emits the identical instructions into the identical
/// registers, and interns nothing.
pub proof fn lemma_sub_replay(sta: CState, pfinal: Seq<Seq<char>>, t: Term, reg: Reg)
    requires
        pool_wf(sta.pool),
        pool_wf(pfinal),
        spec_sub(sta, t, reg) is Ok,
        (spec_sub(sta, t, reg)->Ok_0).pool.is_prefix_of(pfinal),
    ensures
        ({
            let sta1 = spec_sub(sta, t, reg)->Ok_0;
            spec_sub(
                CState { pool: pfinal, allocs: sta.allocs, base: sta.base, code: sta.code },
                t,
                reg,
            ) == Ok::<CState, CompilerError>(
                CState { pool: pfinal, allocs: sta1.allocs, base: sta1.base, code: sta1.code },
            )
        }),
    decreases t, 3int, 0int,
{
    match t {
        Term::Atom(name) => {
            lemma_intern_replay(sta.pool, pfinal, name@);
        },
        Term::Variable(_) => {},
        Term::Clause { functor, args } => {
            let (pool1, fid) = spec_intern(sta.pool, functor@)->Ok_0;
            lemma_spec_intern_extends(sta.pool, functor@);
            let sti = CState { pool: pool1, allocs: sta.allocs, base: sta.base, code: sta.code };
            crate::compiler::lemma_level_allocated_ok(sti, t, reg, fid, Seq::empty(), 0);
            crate::pool::lemma_prefix_trans(
                sti.pool,
                (spec_level_allocated(sti, t, reg, fid, Seq::empty(), 0)->Ok_0).pool,
                pfinal,
            );
            lemma_intern_replay(sta.pool, pfinal, functor@);
            lemma_level_allocated_replay(sti, pfinal, t, reg, fid, Seq::empty(), 0);
        },
    }
}

/// `lemma_sub_replay` for a level whose allocation pass is still to run.
pub proof fn lemma_level_allocated_replay(
    sta: CState,
    pfinal: Seq<Seq<char>>,
    t: Term,
    reg: Reg,
    fid: Atom,
    slots: Seq<ArgSlot>,
    i: int,
)
    requires
        pool_wf(sta.pool),
        pool_wf(pfinal),
        0 <= i,
        spec_level_allocated(sta, t, reg, fid, slots, i) is Ok,
        (spec_level_allocated(sta, t, reg, fid, slots, i)->Ok_0).pool.is_prefix_of(pfinal),
    ensures
        ({
            let sta1 = spec_level_allocated(sta, t, reg, fid, slots, i)->Ok_0;
            spec_level_allocated(
                CState { pool: pfinal, allocs: sta.allocs, base: sta.base, code: sta.code },
                t,
                reg,
                fid,
                slots,
                i,
            ) == Ok::<CState, CompilerError>(
                CState { pool: pfinal, allocs: sta1.allocs, base: sta1.base, code: sta1.code },
            )
        }),
    decreases t, 2int, 0int,
{
    if let Term::Clause { functor, args } = t {
        if i <= args@.len() {
            crate::compiler::lemma_alloc_args_ok(sta, args@, i);
            let (st2, ps) = spec_alloc_args(sta, args@, i)->Ok_0;
            crate::compiler::lemma_level_emit_ok(st2, t, reg, fid, slots + ps);
            crate::pool::lemma_prefix_trans(
                st2.pool,
                (spec_level_emit(st2, t, reg, fid, slots + ps)->Ok_0).pool,
                pfinal,
            );
            lemma_alloc_args_replay(sta, pfinal, args@, i);
            lemma_level_emit_replay(st2, pfinal, t, reg, fid, slots + ps);
        } else {
            crate::compiler::lemma_alloc_args_oob(sta, args@, i);
            let stb = CState { pool: pfinal, allocs: sta.allocs, base: sta.base, code: sta.code };
            crate::compiler::lemma_alloc_args_oob(stb, args@, i);
            lemma_level_emit_replay(sta, pfinal, t, reg, fid, slots + Seq::empty());
        }
    }
}

/// `lemma_sub_replay` for a level whose allocation pass has run.
pub proof fn lemma_level_emit_replay(
    sta: CState,
    pfinal: Seq<Seq<char>>,
    t: Term,
    reg: Reg,
    fid: Atom,
    slots: Seq<ArgSlot>,
)
    requires
        pool_wf(sta.pool),
        pool_wf(pfinal),
        spec_level_emit(sta, t, reg, fid, slots) is Ok,
        (spec_level_emit(sta, t, reg, fid, slots)->Ok_0).pool.is_prefix_of(pfinal),
    ensures
        ({
            let sta1 = spec_level_emit(sta, t, reg, fid, slots)->Ok_0;
            spec_level_emit(
                CState { pool: pfinal, allocs: sta.allocs, base: sta.base, code: sta.code },
                t,
                reg,
                fid,
                slots,
            ) == Ok::<CState, CompilerError>(
                CState { pool: pfinal, allocs: sta1.allocs, base: sta1.base, code: sta1.code },
            )
        }),
    decreases t, 1int, 0int,
{
    if let Term::Clause { functor, args } = t {
        crate::compiler::lemma_children_ok(sta, t, slots, 0);
        let st3 = spec_children(sta, t, slots, 0)->Ok_0;
        let st4 = CState {
            pool: st3.pool,
            allocs: st3.allocs,
            base: st3.base,
            code: st3.code.push(
                Instruction::PutStructure { functor: fid, arity: args@.len() as Reg, reg },
            ),
        };
        crate::compiler::lemma_emit_args_state(st4, slots, 0);
        lemma_children_replay(sta, pfinal, t, slots, 0);
        lemma_emit_replay(st4, pfinal, slots, 0);
    }
}

/// `lemma_sub_replay` for the descent over a clause's arguments.
pub proof fn lemma_children_replay(
    sta: CState,
    pfinal: Seq<Seq<char>>,
    t: Term,
    slots: Seq<ArgSlot>,
    i: int,
)
    requires
        pool_wf(sta.pool),
        pool_wf(pfinal),
        spec_children(sta, t, slots, i) is Ok,
        (spec_children(sta, t, slots, i)->Ok_0).pool.is_prefix_of(pfinal),
    ensures
        ({
            let sta1 = spec_children(sta, t, slots, i)->Ok_0;
            spec_children(
                CState { pool: pfinal, allocs: sta.allocs, base: sta.base, code: sta.code },
                t,
                slots,
                i,
            ) == Ok::<CState, CompilerError>(
                CState { pool: pfinal, allocs: sta1.allocs, base: sta1.base, code: sta1.code },
            )
        }),
    decreases t, 0int, args_remaining(t, i),
{
    if let Term::Clause { functor, args } = t {
        if 0 <= i && i < args@.len() && i < slots.len() {
            let sreg = crate::compiler::slot_reg(slots[i]);
            crate::compiler::lemma_sub_ok(sta, args@[i], sreg);
            let stn = spec_sub(sta, args@[i], sreg)->Ok_0;
            crate::compiler::lemma_children_ok(stn, t, slots, i + 1);
            crate::pool::lemma_prefix_trans(
                stn.pool,
                (spec_children(stn, t, slots, i + 1)->Ok_0).pool,
                pfinal,
            );
            lemma_sub_replay(sta, pfinal, args@[i], sreg);
            lemma_children_replay(stn, pfinal, t, slots, i + 1);
        }
    }
}

/// Determinism across compiler reuse: compiling a term again, against the
/// pool the first compilation left behind (or any well-formed pool extending
/// it), reproduces the identical instruction sequence, register numbering
/// and allocation table, and interns nothing new.
pub proof fn lemma_determinism_recompile(pool: Seq<Seq<char>>, t: Term)
    requires
        pool_wf(pool),
        spec_query(pool, t) is Ok,
    ensures
        ({
            let st1 = spec_query(pool, t)->Ok_0;
            spec_query(st1.pool, t) == Ok::<CState, CompilerError>(st1)
        }),
{
    let st1 = spec_query(pool, t)->Ok_0;
    let st0 = CState {
        pool,
        allocs: Map::<Atom, (Reg, bool)>::empty(),
        base: 0,
        code: Seq::empty(),
    };
    match t {
        Term::Variable(name) => {
            lemma_spec_intern_extends(pool, name@);
            lemma_intern_replay(pool, st1.pool, name@);
        },
        _ => {
            crate::compiler::lemma_sub_ok(st0, t, 0);
            crate::pool::lemma_prefix_refl(st1.pool);
            lemma_sub_replay(st0, st1.pool, t, 0);
        },
    }
}

/// An instruction of the argument-emission family.
pub open spec fn is_set_instr(ins: Instruction) -> bool {
    ins is SetVariable || ins is SetValue
}

/// The emission pass appends exactly one `SetVariable` or `SetValue` per
/// remaining argument position, and touches nothing already emitted.
pub proof fn lemma_emit_shape(st: CState, slots: Seq<ArgSlot>, i: int)
    requires
        0 <= i <= slots.len(),
    ensures
        ({
            let r = spec_emit_args(st, slots, i);
            &&& r.code.len() == st.code.len() + (slots.len() - i)
            &&& st.code.is_prefix_of(r.code)
            &&& forall|j: int| st.code.len() <= j < r.code.len() ==> is_set_instr(#[trigger] r.code[j])
        }),
    decreases slots.len() - i,
{
    crate::pool::lemma_prefix_refl(st.code);
    if i < slots.len() {
        let ins = match slots[i] {
            ArgSlot::Var { vid, reg } => if st.allocs.contains_key(vid) && st.allocs[vid].1 {
                Instruction::SetValue { reg }
            } else {
                Instruction::SetVariable { reg }
            },
            ArgSlot::Sub { reg } => Instruction::SetValue { reg },
        };
        let st1 = match slots[i] {
            ArgSlot::Var { vid, reg } => if st.allocs.contains_key(vid) && st.allocs[vid].1 {
                CState {
                    pool: st.pool,
                    allocs: st.allocs,
                    base: st.base,
                    code: st.code.push(Instruction::SetValue { reg }),
                }
            } else {
                CState {
                    pool: st.pool,
                    allocs: st.allocs.insert(vid, (reg, true)),
                    base: st.base,
                    code: st.code.push(Instruction::SetVariable { reg }),
                }
            },
            ArgSlot::Sub { reg } => CState {
                pool: st.pool,
                allocs: st.allocs,
                base: st.base,
                code: st.code.push(Instruction::SetValue { reg }),
            },
        };
        assert(st1.code == st.code.push(ins));
        assert(is_set_instr(ins));
        assert(st.code.is_prefix_of(st1.code)) by {
            assert(st.code =~= st1.code.subrange(0, st.code.len() as int));
        }
        lemma_emit_shape(st1, slots, i + 1);
        let r = spec_emit_args(st, slots, i);
        crate::pool::lemma_prefix_trans(st.code, st1.code, r.code);
        assert forall|j: int| st.code.len() <= j < r.code.len() implies is_set_instr(
            #[trigger] r.code[j],
        ) by {
            if j == st.code.len() {
                assert(st1.code[j] == ins);
                assert(r.code[j] == st1.code.subrange(0, st1.code.len() as int)[j]);
            }
        }
    }
}

/// Containment before use: a structure's own `PutStructure` (at the position
/// this lemma returns) is emitted only after every instruction of its
/// argument subterms — they occupy the positions between the code this level
/// started from and `k` — and is followed by exactly one `SetVariable` or
/// `SetValue` per argument position, and by nothing else.
pub proof fn lemma_containment(st: CState, t: Term, reg: Reg) -> (k: int)
    requires
        pool_wf(st.pool),
        t is Clause,
        spec_sub(st, t, reg) is Ok,
    ensures
        ({
            let st1 = spec_sub(st, t, reg)->Ok_0;
            &&& st.code.len() <= k < st1.code.len()
            &&& st1.code[k] matches Instruction::PutStructure { functor: _, arity: a, reg: r }
                && a == clause_args(t).len() && r == reg
            &&& k + 1 + clause_args(t).len() == st1.code.len()
            &&& forall|j: int| k < j < st1.code.len() ==> is_set_instr(#[trigger] st1.code[j])
            &&& forall|j: int| 0 <= j < st.code.len() ==> st1.code[j] == st.code[j]
        }),
{
    let st1 = spec_sub(st, t, reg)->Ok_0;
    if let Term::Clause { functor, args } = t {
        let (pool1, fid) = spec_intern(st.pool, functor@)->Ok_0;
        lemma_spec_intern_extends(st.pool, functor@);
        let sti = CState { pool: pool1, allocs: st.allocs, base: st.base, code: st.code };
        crate::compiler::lemma_alloc_args_ok(sti, args@, 0);
        let (st2, ps) = spec_alloc_args(sti, args@, 0)->Ok_0;
        assert(Seq::<ArgSlot>::empty() + ps =~= ps);
        crate::compiler::lemma_children_ok(st2, t, ps, 0);
        let st3 = spec_children(st2, t, ps, 0)->Ok_0;
        let put = Instruction::PutStructure { functor: fid, arity: args@.len() as Reg, reg };
        let st4 = CState {
            pool: st3.pool,
            allocs: st3.allocs,
            base: st3.base,
            code: st3.code.push(put),
        };
        let k = st3.code.len() as int;
        assert(st4.code[k] == put);
        lemma_emit_shape(st4, ps, 0);
        assert(st1 == spec_emit_args(st4, ps, 0));
        assert(st4.code.is_prefix_of(st1.code));
        assert(st1.code[k] == st4.code.subrange(0, st4.code.len() as int)[k]);
        assert(st1.code[k] == put);
        assert forall|j: int| k < j < st1.code.len() implies is_set_instr(
            #[trigger] st1.code[j],
        ) by {
            assert(st4.code.len() == k + 1);
        }
        assert forall|j: int| 0 <= j < st.code.len() implies st1.code[j] == st.code[j] by {
            assert(st.code.is_prefix_of(st3.code));
            assert(st.code[j] == st3.code.subrange(0, st.code.len() as int)[j]);
            assert(st3.code[j] == st4.code[j]);
            assert(st4.code[j] == st4.code.subrange(0, st4.code.len() as int)[j]);
        }
        k
    } else {
        0
    }
}

/// How many `SetVariable{r}` instructions the code holds.
pub open spec fn count_sv(code: Seq<Instruction>, r: Reg) -> nat
    decreases code.len(),
{
    if code.len() == 0 {
        0
    } else {
        count_sv(code.drop_last(), r) + (if code.last() == (Instruction::SetVariable { reg: r }) {
            1nat
        } else {
            0nat
        })
    }
}

/// Appending one instruction raises exactly the count of the `SetVariable`
/// it is, if it is one.
pub proof fn lemma_count_push(code: Seq<Instruction>, x: Instruction)
    ensures
        forall|r: Reg|
            #[trigger] count_sv(code.push(x), r) == count_sv(code, r) + (if x == (
            Instruction::SetVariable { reg: r }) {
                1nat
            } else {
                0nat
            }),
{
    assert forall|r: Reg|
        #[trigger] count_sv(code.push(x), r) == count_sv(code, r) + (if x == (
        Instruction::SetVariable { reg: r }) {
            1nat
        } else {
            0nat
        }) by {
        assert(code.push(x).drop_last() =~= code);
        assert(code.push(x).last() == x);
    }
}

/// The single-materialization invariant: the table is consistent, a seen
/// variable's register has received exactly one `SetVariable`, an unseen
/// one's none, and no register above the counter has received any.
pub open spec fn sv_ok(a: Map<Atom, (Reg, bool)>, base: Reg, code: Seq<Instruction>) -> bool {
    &&& allocs_wf(a, base)
    &&& forall|v: Atom|
        #[trigger] a.contains_key(v) ==> count_sv(code, a[v].0) == (if a[v].1 {
            1nat
        } else {
            0nat
        })
    &&& forall|r: Reg| r > base ==> #[trigger] count_sv(code, r) == 0
}

/// One allocation step preserves the single-materialization invariant: the
/// fresh register lies above the old counter, so nothing targets it yet.
pub proof fn lemma_alloc_one_sv(st: CState, arg: Term)
    requires
        sv_ok(st.allocs, st.base, st.code),
    ensures
        spec_alloc_one(st, arg) matches Ok((st1, p)) ==> sv_ok(st1.allocs, st1.base, st1.code)
            && allocs_extend(st.allocs, st1.allocs),
{
    lemma_alloc_one_wf(st, arg);
}

/// The allocation pass preserves the single-materialization invariant.
pub proof fn lemma_alloc_args_sv(st: CState, args: Seq<Term>, i: int)
    requires
        sv_ok(st.allocs, st.base, st.code),
    ensures
        spec_alloc_args(st, args, i) matches Ok((st2, ps)) ==> sv_ok(st2.allocs, st2.base, st2.code)
            && allocs_extend(st.allocs, st2.allocs) && slots_wf(ps, st2.allocs),
    decreases args.len() - i,
{
    lemma_alloc_args_wf(st, args, i);
    if 0 <= i < args.len() {
        lemma_alloc_one_sv(st, args[i]);
        if let Ok((st1, p)) = spec_alloc_one(st, args[i]) {
            lemma_alloc_args_sv(st1, args, i + 1);
        }
    }
}

/// The emission pass preserves the single-materialization invariant: a
/// variable's `SetVariable` is pushed exactly when its flag turns true.
pub proof fn lemma_emit_args_sv(st: CState, slots: Seq<ArgSlot>, i: int)
    requires
        sv_ok(st.allocs, st.base, st.code),
        slots_wf(slots, st.allocs),
    ensures
        ({
            let st1 = spec_emit_args(st, slots, i);
            sv_ok(st1.allocs, st1.base, st1.code) && allocs_extend(st.allocs, st1.allocs)
        }),
    decreases slots.len() - i,
{
    lemma_emit_args_wf(st, slots, i);
    if 0 <= i < slots.len() {
        match slots[i] {
            ArgSlot::Var { vid, reg } => {
                if st.allocs.contains_key(vid) && st.allocs[vid].1 {
                    let st1 = CState {
                        pool: st.pool,
                        allocs: st.allocs,
                        base: st.base,
                        code: st.code.push(Instruction::SetValue { reg }),
                    };
                    lemma_count_push(st.code, Instruction::SetValue { reg });
                    lemma_emit_args_sv(st1, slots, i + 1);
                } else {
                    assert(st.allocs.contains_key(vid) && st.allocs[vid].0 == reg);
                    let a1 = st.allocs.insert(vid, (reg, true));
                    let code1 = st.code.push(Instruction::SetVariable { reg });
                    lemma_count_push(st.code, Instruction::SetVariable { reg });
                    assert(allocs_extend(st.allocs, a1));
                    assert(sv_ok(a1, st.base, code1)) by {
                        assert(allocs_wf(a1, st.base)) by {
                            assert forall|v1: Atom, v2: Atom|
                                a1.contains_key(v1) && a1.contains_key(v2) && v1 != v2 implies (
                            #[trigger] a1[v1]).0 != (#[trigger] a1[v2]).0 by {
                                assert(st.allocs.contains_key(v1) && st.allocs.contains_key(v2));
                                assert(a1[v1].0 == st.allocs[v1].0);
                                assert(a1[v2].0 == st.allocs[v2].0);
                            }
                        }
                        assert forall|v: Atom| #[trigger] a1.contains_key(v) implies count_sv(
                            code1,
                            a1[v].0,
                        ) == (if a1[v].1 {
                            1nat
                        } else {
                            0nat
                        }) by {
                            assert(st.allocs.contains_key(v));
                            if v == vid {
                                assert(count_sv(st.code, reg) == 0);
                            } else {
                                assert(a1[v] == st.allocs[v]);
                                assert(a1[v].0 != reg);
                            }
                        }
                    }
                    lemma_slots_wf_mono(slots, st.allocs, a1);
                    let st1 = CState { pool: st.pool, allocs: a1, base: st.base, code: code1 };
                    lemma_emit_args_sv(st1, slots, i + 1);
                    lemma_extend_trans(st.allocs, a1, spec_emit_args(st1, slots, i + 1).allocs);
                }
            },
            ArgSlot::Sub { reg } => {
                let st1 = CState {
                    pool: st.pool,
                    allocs: st.allocs,
                    base: st.base,
                    code: st.code.push(Instruction::SetValue { reg }),
                };
                lemma_count_push(st.code, Instruction::SetValue { reg });
                lemma_emit_args_sv(st1, slots, i + 1);
            },
        }
    }
}

/// A subterm's compilation preserves the single-materialization invariant.
pub proof fn lemma_sub_sv(st: CState, t: Term, reg: Reg)
    requires
        sv_ok(st.allocs, st.base, st.code),
    ensures
        spec_sub(st, t, reg) matches Ok(st1) ==> sv_ok(st1.allocs, st1.base, st1.code)
            && allocs_extend(st.allocs, st1.allocs),
    decreases t, 3int, 0int,
{
    match t {
        Term::Atom(name) => {
            if let Ok((pool1, fid)) = spec_intern(st.pool, name@) {
                lemma_count_push(st.code, Instruction::PutStructure { functor: fid, arity: 0, reg });
            }
        },
        Term::Variable(_) => {},
        Term::Clause { functor, args } => {
            if args@.len() <= 255 {
                if let Ok((pool1, fid)) = spec_intern(st.pool, functor@) {
                    let sti = CState { pool: pool1, allocs: st.allocs, base: st.base, code: st.code };
                    lemma_level_allocated_sv(sti, t, reg, fid, Seq::empty(), 0);
                }
            }
        },
    }
}

/// `lemma_sub_sv` for a level whose allocation pass is still to run.
pub proof fn lemma_level_allocated_sv(
    st: CState,
    t: Term,
    reg: Reg,
    fid: Atom,
    slots: Seq<ArgSlot>,
    i: int,
)
    requires
        sv_ok(st.allocs, st.base, st.code),
        slots_wf(slots, st.allocs),
    ensures
        spec_level_allocated(st, t, reg, fid, slots, i) matches Ok(st1) ==> sv_ok(
            st1.allocs,
            st1.base,
            st1.code,
        ) && allocs_extend(st.allocs, st1.allocs),
    decreases t, 2int, 0int,
{
    if let Term::Clause { functor, args } = t {
        lemma_alloc_args_sv(st, args@, i);
        if let Ok((st2, ps)) = spec_alloc_args(st, args@, i) {
            lemma_slots_wf_mono(slots, st.allocs, st2.allocs);
            let all = slots + ps;
            assert forall|j: int| 0 <= j < all.len() implies match #[trigger] all[j] {
                ArgSlot::Var { vid, reg } => st2.allocs.contains_key(vid) && st2.allocs[vid].0
                    == reg,
                ArgSlot::Sub { reg } => true,
            } by {
                if j < slots.len() {
                    assert(all[j] == slots[j]);
                    assert(slots_wf(slots, st2.allocs));
                } else {
                    assert(all[j] == ps[j - slots.len()]);
                    assert(slots_wf(ps, st2.allocs));
                }
            }
            lemma_level_emit_sv(st2, t, reg, fid, slots + ps);
            if let Ok(st1) = spec_level_emit(st2, t, reg, fid, slots + ps) {
                lemma_extend_trans(st.allocs, st2.allocs, st1.allocs);
            }
        }
    }
}

/// `lemma_sub_sv` for a level whose allocation pass has run.
pub proof fn lemma_level_emit_sv(st: CState, t: Term, reg: Reg, fid: Atom, slots: Seq<ArgSlot>)
    requires
        sv_ok(st.allocs, st.base, st.code),
        slots_wf(slots, st.allocs),
    ensures
        spec_level_emit(st, t, reg, fid, slots) matches Ok(st1) ==> sv_ok(
            st1.allocs,
            st1.base,
            st1.code,
        ) && allocs_extend(st.allocs, st1.allocs),
    decreases t, 1int, 0int,
{
    if let Term::Clause { functor, args } = t {
        lemma_children_sv(st, t, slots, 0);
        if let Ok(st3) = spec_children(st, t, slots, 0) {
            let put = Instruction::PutStructure { functor: fid, arity: args@.len() as Reg, reg };
            let st4 = CState {
                pool: st3.pool,
                allocs: st3.allocs,
                base: st3.base,
                code: st3.code.push(put),
            };
            lemma_count_push(st3.code, put);
            lemma_slots_wf_mono(slots, st.allocs, st3.allocs);
            lemma_emit_args_sv(st4, slots, 0);
            lemma_extend_trans(st.allocs, st4.allocs, spec_emit_args(st4, slots, 0).allocs);
        }
    }
}

/// `lemma_sub_sv` for the descent over a clause's arguments.
pub proof fn lemma_children_sv(st: CState, t: Term, slots: Seq<ArgSlot>, i: int)
    requires
        sv_ok(st.allocs, st.base, st.code),
        slots_wf(slots, st.allocs),
    ensures
        spec_children(st, t, slots, i) matches Ok(st1) ==> sv_ok(st1.allocs, st1.base, st1.code)
            && allocs_extend(st.allocs, st1.allocs) && slots_wf(slots, st1.allocs),
    decreases t, 0int, args_remaining(t, i),
{
    if let Term::Clause { functor, args } = t {
        if 0 <= i && i < args@.len() && i < slots.len() {
            lemma_sub_sv(st, args@[i], crate::compiler::slot_reg(slots[i]));
            if let Ok(stn) = spec_sub(st, args@[i], crate::compiler::slot_reg(slots[i])) {
                lemma_slots_wf_mono(slots, st.allocs, stn.allocs);
                lemma_children_sv(stn, t, slots, i + 1);
                if let Ok(st1) = spec_children(stn, t, slots, i + 1) {
                    lemma_extend_trans(st.allocs, stn.allocs, st1.allocs);
                }
            }
        }
    }
}

/// Variable single materialization: over one whole compilation, a variable
/// marked seen has received exactly one `SetVariable` on its register, one
/// not yet seen none, and no register outside the reserved range any. With
/// register uniqueness this is the `SetVariable` half of the
/// single-occurrence law; the `SetValue` half is exercised by tests.
pub proof fn lemma_single_materialization(pool: Seq<Seq<char>>, t: Term)
    ensures
        spec_query(pool, t) matches Ok(st) ==> sv_ok(st.allocs, st.base, st.code),
{
    let st0 = CState {
        pool,
        allocs: Map::<Atom, (Reg, bool)>::empty(),
        base: 0,
        code: Seq::empty(),
    };
    match t {
        Term::Variable(name) => {
            if let Ok((pool1, _vid)) = spec_intern(pool, name@) {
                let code1 = seq![Instruction::SetVariable { reg: 0 }];
                assert forall|r: Reg| r > 0 implies #[trigger] count_sv(code1, r) == 0 by {
                    assert(code1.len() == 1);
                    assert(code1.drop_last() =~= Seq::<Instruction>::empty());
                    assert(count_sv(Seq::<Instruction>::empty(), r) == 0);
                    assert(code1.last() == (Instruction::SetVariable { reg: 0 }));
                    assert(code1.last() != (Instruction::SetVariable { reg: r }));
                }
            }
        },
        _ => {
            lemma_sub_sv(st0, t, 0);
        },
    }
}

/// Register uniqueness: over one whole compilation, no two distinct
/// variables are ever assigned the same register, and every assigned
/// register lies within the reserved range `1..=base`.
pub proof fn lemma_register_uniqueness(pool: Seq<Seq<char>>, t: Term)
    ensures
        spec_query(pool, t) matches Ok(st) ==> allocs_wf(st.allocs, st.base),
{
    let st0 = CState {
        pool,
        allocs: Map::<Atom, (Reg, bool)>::empty(),
        base: 0,
        code: Seq::empty(),
    };
    match t {
        Term::Variable(_) => {},
        _ => {
            lemma_sub_wf(st0, t, 0);
        },
    }
}

} // verus!
