use l0::ast::Term;
use l0::compiler::Compiler;
use l0::compiler::Instruction;
use l0::pool::Pool;
use l0::CompilerError;

fn var(name: &str) -> Term {
    Term::Variable(String::from(name))
}

fn atom(name: &str) -> Term {
    Term::Atom(String::from(name))
}

fn clause(functor: &str, args: Vec<Term>) -> Term {
    Term::Clause { functor: String::from(functor), args }
}

/// p(Z, h(Z, W), f(W)), the canonical worked query.
fn worked_query() -> Term {
    clause(
        "p",
        vec![
            var("Z"),
            clause("h", vec![var("Z"), var("W")]),
            clause("f", vec![var("W")]),
        ],
    )
}

#[test]
fn bare_atom_compiles_to_one_put() {
    let mut c = Compiler::new();
    c.compile_query(&atom("a")).unwrap();
    assert_eq!(
        *c.program(),
        vec![Instruction::PutStructure { functor: 0, arity: 0, reg: 0 }]
    );
}

#[test]
fn bare_variable_compiles_to_one_set_variable() {
    let mut c = Compiler::new();
    c.compile_query(&var("Z")).unwrap();
    assert_eq!(*c.program(), vec![Instruction::SetVariable { reg: 0 }]);
    // The variable's name is interned even though no id appears in the code.
    assert_eq!(c.symbols().len(), 1);
}

#[test]
fn worked_example_instructions() {
    let mut c = Compiler::new();
    c.compile_query(&worked_query()).unwrap();
    // Interning order: p, Z, h, W, f.
    let p = 0u16;
    let h = 2u16;
    let f = 4u16;
    assert_eq!(
        *c.program(),
        vec![
            Instruction::PutStructure { functor: h, arity: 2, reg: 2 },
            Instruction::SetVariable { reg: 1 },
            Instruction::SetVariable { reg: 4 },
            Instruction::PutStructure { functor: f, arity: 1, reg: 3 },
            Instruction::SetValue { reg: 4 },
            Instruction::PutStructure { functor: p, arity: 3, reg: 0 },
            Instruction::SetValue { reg: 1 },
            Instruction::SetValue { reg: 2 },
            Instruction::SetValue { reg: 3 },
        ]
    );
}

#[test]
fn worked_example_rendering() {
    let mut c = Compiler::new();
    c.compile_query(&worked_query()).unwrap();
    let rendered: Vec<String> = c
        .program()
        .iter()
        .map(|i| i.fmt(c.symbols()).unwrap())
        .collect();
    assert_eq!(
        rendered,
        vec![
            "put_structure h/2, X3",
            "set_variable X2",
            "set_variable X5",
            "put_structure f/1, X4",
            "set_value X5",
            "put_structure p/3, X1",
            "set_value X2",
            "set_value X3",
            "set_value X4",
        ]
    );
}

#[test]
fn variable_single_occurrence() {
    // In the worked example Z holds register 1 and W register 4: each gets
    // exactly one SetVariable and, for its k occurrences, k-1 SetValue.
    let mut c = Compiler::new();
    c.compile_query(&worked_query()).unwrap();
    for (reg, occurrences) in [(1u8, 2usize), (4u8, 2usize)] {
        let sv = c
            .program()
            .iter()
            .filter(|i| matches!(i, Instruction::SetVariable { reg: r } if *r == reg))
            .count();
        let s = c
            .program()
            .iter()
            .filter(|i| matches!(i, Instruction::SetValue { reg: r } if *r == reg))
            .count();
        assert_eq!(sv, 1);
        assert_eq!(s, occurrences - 1);
    }
}

#[test]
fn determinism_fresh_and_reused_compiler() {
    let mut c1 = Compiler::new();
    c1.compile_query(&worked_query()).unwrap();
    let first: Vec<Instruction> = c1.program().clone();

    // Same compiler again: the pool already holds every name.
    c1.compile_query(&worked_query()).unwrap();
    assert_eq!(*c1.program(), first);

    // A fresh compiler gives the identical sequence too.
    let mut c2 = Compiler::new();
    c2.compile_query(&worked_query()).unwrap();
    assert_eq!(*c2.program(), first);
}

#[test]
fn reset_isolation_between_calls() {
    let mut c = Compiler::new();
    c.compile_query(&clause("p", vec![var("Z"), var("W")])).unwrap();
    // The second, unrelated query starts from a fresh allocation table:
    // its variable gets register 1, not a register left over from Z or W.
    c.compile_query(&clause("f", vec![var("A")])).unwrap();
    let f = c.symbols().len() as u16 - 2; // "f" interned before "A"
    assert_eq!(
        *c.program(),
        vec![
            Instruction::PutStructure { functor: f, arity: 1, reg: 0 },
            Instruction::SetVariable { reg: 1 },
        ]
    );
}

#[test]
fn atom_argument_is_built_before_its_container() {
    let mut c = Compiler::new();
    // p(a, X): interning order p, X, a.
    c.compile_query(&clause("p", vec![atom("a"), var("X")])).unwrap();
    assert_eq!(
        *c.program(),
        vec![
            Instruction::PutStructure { functor: 2, arity: 0, reg: 1 },
            Instruction::PutStructure { functor: 0, arity: 2, reg: 0 },
            Instruction::SetValue { reg: 1 },
            Instruction::SetVariable { reg: 2 },
        ]
    );
}

#[test]
fn repeated_variable_across_levels() {
    let mut c = Compiler::new();
    // p(f(X), X): X is first materialized inside f, then reused at p's level.
    c.compile_query(&clause("p", vec![clause("f", vec![var("X")]), var("X")])).unwrap();
    assert_eq!(
        *c.program(),
        vec![
            Instruction::PutStructure { functor: 2, arity: 1, reg: 1 },
            Instruction::SetVariable { reg: 2 },
            Instruction::PutStructure { functor: 0, arity: 2, reg: 0 },
            Instruction::SetValue { reg: 1 },
            Instruction::SetValue { reg: 2 },
        ]
    );
}

#[test]
fn register_overflow_leaves_no_program() {
    let mut c = Compiler::new();
    let args: Vec<Term> = (0..300).map(|i| var(&format!("V{}", i))).collect();
    let r = c.compile_query(&clause("p", args));
    assert_eq!(r, Err(CompilerError::RegisterOverflow));
    assert!(c.program().is_empty());
}

#[test]
fn wide_arity_overflows() {
    let mut c = Compiler::new();
    // 300 occurrences of one variable need only one register, but the arity
    // operand of PutStructure cannot hold 300.
    let args: Vec<Term> = (0..300).map(|_| var("X")).collect();
    let r = c.compile_query(&clause("p", args));
    assert_eq!(r, Err(CompilerError::RegisterOverflow));
    assert!(c.program().is_empty());
}

#[test]
fn interning_idempotent_and_injective() {
    let mut pool = Pool::new();
    let a = pool.intern(&String::from("foo")).unwrap();
    let b = pool.intern(&String::from("bar")).unwrap();
    let a2 = pool.intern(&String::from("foo")).unwrap();
    assert_eq!(a, a2);
    assert_ne!(a, b);
    assert_eq!(pool.len(), 2);
    assert_eq!(pool.resolve(a).unwrap().as_str(), "foo");
    assert_eq!(pool.resolve(b).unwrap().as_str(), "bar");
    assert!(pool.resolve(2).is_none());
}

#[test]
fn unknown_symbol_on_foreign_pool() {
    let pool = Pool::new();
    let instr = Instruction::PutStructure { functor: 5, arity: 1, reg: 0 };
    assert_eq!(instr.fmt(&pool), Err(CompilerError::UnknownSymbol));
    let instr = Instruction::GetStructure { functor: 0, arity: 1, reg: 0 };
    assert_eq!(instr.fmt(&pool), Err(CompilerError::UnknownSymbol));
}

#[test]
fn rendering_all_opcodes() {
    let mut pool = Pool::new();
    let g = pool.intern(&String::from("g")).unwrap();
    assert_eq!(
        Instruction::PutStructure { functor: g, arity: 2, reg: 9 }.fmt(&pool).unwrap(),
        "put_structure g/2, X10"
    );
    assert_eq!(
        Instruction::GetStructure { functor: g, arity: 12, reg: 254 }.fmt(&pool).unwrap(),
        "get_structure g/12, X255"
    );
    assert_eq!(Instruction::SetVariable { reg: 0 }.fmt(&pool).unwrap(), "set_variable X1");
    assert_eq!(Instruction::SetValue { reg: 99 }.fmt(&pool).unwrap(), "set_value X100");
    assert_eq!(Instruction::UnifyVariable { reg: 41 }.fmt(&pool).unwrap(), "unify_variable X42");
    assert_eq!(Instruction::UnifyValue { reg: 255 }.fmt(&pool).unwrap(), "unify_value X256");
}

#[test]
fn deep_nesting_single_chain() {
    let mut c = Compiler::new();
    // p(f(g(X))): interning order p, f, g, X.
    let q = clause("p", vec![clause("f", vec![clause("g", vec![var("X")])])]);
    c.compile_query(&q).unwrap();
    assert_eq!(
        *c.program(),
        vec![
            Instruction::PutStructure { functor: 2, arity: 1, reg: 2 },
            Instruction::SetVariable { reg: 3 },
            Instruction::PutStructure { functor: 1, arity: 1, reg: 1 },
            Instruction::SetValue { reg: 2 },
            Instruction::PutStructure { functor: 0, arity: 1, reg: 0 },
            Instruction::SetValue { reg: 1 },
        ]
    );
}

#[test]
fn sibling_structures_continue_numbering() {
    let mut c = Compiler::new();
    // p(f(X), g(Y)): sibling subtrees share the running register counter.
    let q = clause("p", vec![clause("f", vec![var("X")]), clause("g", vec![var("Y")])]);
    c.compile_query(&q).unwrap();
    assert_eq!(
        *c.program(),
        vec![
            Instruction::PutStructure { functor: 1, arity: 1, reg: 1 },
            Instruction::SetVariable { reg: 3 },
            Instruction::PutStructure { functor: 3, arity: 1, reg: 2 },
            Instruction::SetVariable { reg: 4 },
            Instruction::PutStructure { functor: 0, arity: 2, reg: 0 },
            Instruction::SetValue { reg: 1 },
            Instruction::SetValue { reg: 2 },
        ]
    );
}

#[test]
fn no_common_subterm_elimination() {
    let mut c = Compiler::new();
    // p(f(X), f(X)): structurally identical subterms are compiled
    // independently, each into its own register.
    let q = clause("p", vec![clause("f", vec![var("X")]), clause("f", vec![var("X")])]);
    c.compile_query(&q).unwrap();
    assert_eq!(
        *c.program(),
        vec![
            Instruction::PutStructure { functor: 1, arity: 1, reg: 1 },
            Instruction::SetVariable { reg: 3 },
            Instruction::PutStructure { functor: 1, arity: 1, reg: 2 },
            Instruction::SetValue { reg: 3 },
            Instruction::PutStructure { functor: 0, arity: 2, reg: 0 },
            Instruction::SetValue { reg: 1 },
            Instruction::SetValue { reg: 2 },
        ]
    );
}
