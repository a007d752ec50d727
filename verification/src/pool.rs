use vstd::prelude::*;

use crate::Atom;
use crate::CompilerError;

verus! {

/// Index of the first entry of `pool` equal to `name`, or `-1` if absent.
pub open spec fn find_in(pool: Seq<Seq<char>>, name: Seq<char>) -> int
    decreases pool.len(),
{
    if pool.len() == 0 {
        -1
    } else if pool[0] == name {
        0
    } else {
        let rest = find_in(pool.drop_first(), name);
        if rest < 0 {
            -1
        } else {
            rest + 1
        }
    }
}

/// What `find_in` returns: either `name` is nowhere in `pool`, or the result
/// is the index of its first occurrence.
pub proof fn lemma_find_in(pool: Seq<Seq<char>>, name: Seq<char>)
    ensures
        find_in(pool, name) == -1 ==> forall|j: int| 0 <= j < pool.len() ==> pool[j] != name,
        find_in(pool, name) != -1 ==> {
            let k = find_in(pool, name);
            0 <= k < pool.len() && pool[k] == name && (forall|j: int| 0 <= j < k ==> pool[j] != name)
        },
    decreases pool.len(),
{
    if pool.len() != 0 && pool[0] != name {
        let rest = pool.drop_first();
        lemma_find_in(rest, name);
        assert(forall|j: int| 0 <= j < rest.len() ==> rest[j] == pool[j + 1]);
        let r = find_in(rest, name);
        if r == -1 {
            assert forall|j: int| 0 <= j < pool.len() implies pool[j] != name by {
                if j > 0 {
                    assert(pool[j] == rest[j - 1]);
                }
            }
        } else {
            let k = find_in(pool, name);
            assert(k == r + 1);
            assert(pool[k] == rest[r]);
            assert forall|j: int| 0 <= j < k implies pool[j] != name by {
                if j > 0 {
                    assert(pool[j] == rest[j - 1]);
                }
            }
        }
    }
}

/// A well-formed pool holds pairwise distinct names, no more than the `Atom`
/// id space can address.
pub open spec fn pool_wf(pool: Seq<Seq<char>>) -> bool {
    &&& pool.len() <= 65536
    &&& forall|i: int, j: int| 0 <= i < j < pool.len() ==> pool[i] != pool[j]
}

/// What interning does to a pool: an already present name keeps the pool and
/// returns the id it was first given; a new name is appended and given the
/// next dense id, unless the id space is exhausted.
pub open spec fn spec_intern(pool: Seq<Seq<char>>, name: Seq<char>) -> Result<
    (Seq<Seq<char>>, Atom),
    CompilerError,
> {
    let k = find_in(pool, name);
    if k >= 0 {
        Ok((pool, k as Atom))
    } else if pool.len() < 65536 {
        Ok((pool.push(name), pool.len() as Atom))
    } else {
        Err(CompilerError::SymbolOverflow)
    }
}

/// Interning keeps the pool well formed and only ever appends to it.
pub proof fn lemma_spec_intern_extends(pool: Seq<Seq<char>>, name: Seq<char>)
    requires
        pool_wf(pool),
    ensures
        spec_intern(pool, name) matches Ok((p, id)) ==> {
            &&& pool_wf(p)
            &&& pool.is_prefix_of(p)
            &&& id < p.len()
            &&& p[id as int] == name
        },
{
    lemma_find_in(pool, name);
    let k = find_in(pool, name);
    if k < 0 && pool.len() < 65536 {
        let p = pool.push(name);
        assert(forall|i: int| 0 <= i < pool.len() ==> p[i] == pool[i]);
        assert(pool.is_prefix_of(p)) by {
            assert(pool =~= p.subrange(0, pool.len() as int));
        }
    } else if k >= 0 {
        assert(pool.is_prefix_of(pool)) by {
            assert(pool =~= pool.subrange(0, pool.len() as int));
        }
    }
}

/// Every sequence is a prefix of itself.
pub proof fn lemma_prefix_refl<A>(p: Seq<A>)
    ensures
        p.is_prefix_of(p),
{
    assert(p =~= p.subrange(0, p.len() as int));
}

/// Being a prefix is transitive.
pub proof fn lemma_prefix_trans<A>(a: Seq<A>, b: Seq<A>, c: Seq<A>)
    requires
        a.is_prefix_of(b),
        b.is_prefix_of(c),
    ensures
        a.is_prefix_of(c),
{
    assert forall|i: int| 0 <= i < a.len() implies a[i] == c[i] by {
        assert(a[i] == b.subrange(0, a.len() as int)[i]);
        assert(b[i] == c.subrange(0, b.len() as int)[i]);
    }
    assert(a =~= c.subrange(0, a.len() as int));
}

/// Bidirectional symbol interner: name to dense id and back. The pool only
/// grows; an id, once issued, stays valid and keeps its name for the pool's
/// lifetime.
pub struct Pool {
    entries: Vec<String>,
}

impl View for Pool {
    type V = Seq<Seq<char>>;

    closed spec fn view(&self) -> Seq<Seq<char>> {
        self.entries@.map_values(|s: String| s@)
    }
}

impl Pool {
    /// The names interned so far are pairwise distinct and fit the id space.
    pub open spec fn wf(self) -> bool {
        pool_wf(self@)
    }

    /// An empty pool.
    pub fn new() -> (r: Pool)
        ensures
            r@ == Seq::<Seq<char>>::empty(),
            r.wf(),
    {
        let r = Pool { entries: Vec::new() };
        proof {
            assert(r@ =~= Seq::<Seq<char>>::empty());
        }
        r
    }

    /// How many names this pool has interned.
    pub fn len(&self) -> (n: usize)
        ensures
            n == self@.len(),
    {
        self.entries.len()
    }

    /// Return `name`'s id, interning it first if it is new.
    pub fn intern(&mut self, name: &String) -> (r: Result<Atom, CompilerError>)
        requires
            old(self).wf(),
        ensures
            final(self).wf(),
            match spec_intern(old(self)@, name@) {
                Ok((p, id)) => r == Ok::<Atom, CompilerError>(id) && final(self)@ == p,
                Err(e) => r == Err::<Atom, CompilerError>(e) && final(self)@ == old(self)@,
            },
    {
        proof {
            lemma_find_in(self@, name@);
            lemma_spec_intern_extends(self@, name@);
        }
        let n = self.entries.len();
        let mut i: usize = 0;
        while i < n
            invariant
                i <= n,
                n == self@.len(),
                n <= 65536,
                *self == *old(self),
                self.wf(),
                forall|j: int| 0 <= j < i ==> self@[j] != name@,
            decreases n - i,
        {
            if self.entries[i] == *name {
                assert(self@[i as int] == name@);
                assert(find_in(self@, name@) == i) by {
                    lemma_find_in(self@, name@);
                }
                return Ok(i as Atom);
            }
            assert(self@[i as int] != name@);
            i += 1;
        }
        assert(find_in(self@, name@) == -1) by {
            lemma_find_in(self@, name@);
        }
        if n >= 65536 {
            return Err(CompilerError::SymbolOverflow);
        }
        let id = n as Atom;
        self.entries.push(name.clone());
        proof {
            assert(self@ =~= old(self)@.push(name@));
        }
        Ok(id)
    }

    /// Look an id up; `None` when this pool never issued `id`.
    pub fn resolve(&self, id: Atom) -> (r: Option<&String>)
        ensures
            match r {
                Some(s) => id < self@.len() && s@ == self@[id as int],
                None => self@.len() <= id,
            },
    {
        if (id as usize) < self.entries.len() {
            Some(&self.entries[id as usize])
        } else {
            None
        }
    }
}

} // verus!
