//! Type variables and what is known of them.
//!
//! Variables that must have the same type form a class; a class has at most
//! one type.

use crate::ir::error::{Error, ErrorModel};
use crate::ir::types::{Dtype, DtypeModel};
use vstd::prelude::*;

verus! {

/// What is known of the type variables: those with the same label have the
/// same type.
#[verifier::ext_equal]
pub struct Store {
    pub labels: Seq<int>,
    pub bound: Seq<Option<DtypeModel>>,
}

impl Store {
    /// Nothing is known of any variable.
    pub open spec fn empty() -> Store {
        Store { labels: Seq::empty(), bound: Seq::empty() }
    }

    /// The variables are in the same class.
    pub open spec fn same(self, x: int, y: int) -> bool {
        self.labels[x] == self.labels[y]
    }

    /// The store with one more variable, in a class of its own.
    pub open spec fn fresh(self) -> Store {
        Store { labels: self.labels.push(self.labels.len() as int), bound: self.bound.push(None) }
    }

    /// The class of `x` has the type `d`.
    pub open spec fn bind(self, x: int, d: DtypeModel, symbol: Seq<char>) -> Result<
        Store,
        ErrorModel,
    > {
        match self.bound[x] {
            None => Ok(
                Store {
                    labels: self.labels,
                    bound: Seq::new(
                        self.bound.len(),
                        |u: int|
                            if self.same(u, x) {
                                Some(d)
                            } else {
                                self.bound[u]
                            },
                    ),
                },
            ),
            Some(t) => if t == d {
                Ok(self)
            } else {
                Err(ErrorModel::TypeMismatch { symbol, expected: t, actual: d })
            },
        }
    }

    /// The classes of `a` and `b` are one, with the given type.
    pub open spec fn joined(self, a: int, b: int, d: Option<DtypeModel>) -> Store {
        Store {
            labels: Seq::new(
                self.labels.len(),
                |u: int|
                    if self.same(u, b) {
                        self.labels[a]
                    } else {
                        self.labels[u]
                    },
            ),
            bound: Seq::new(
                self.bound.len(),
                |u: int|
                    if self.same(u, a) || self.same(u, b) {
                        d
                    } else {
                        self.bound[u]
                    },
            ),
        }
    }

    /// `a` and `b` have the same type.
    pub open spec fn union(self, a: int, b: int, symbol: Seq<char>) -> Result<Store, ErrorModel> {
        if self.same(a, b) {
            Ok(self)
        } else {
            match (self.bound[a], self.bound[b]) {
                (None, None) => Ok(self.joined(a, b, None)),
                (Some(t), None) => Ok(self.joined(a, b, Some(t))),
                (None, Some(t)) => Ok(self.joined(a, b, Some(t))),
                (Some(x), Some(y)) => if x == y {
                    Ok(self.joined(a, b, Some(x)))
                } else {
                    Err(ErrorModel::TypeMismatch { symbol, expected: x, actual: y })
                },
            }
        }
    }

    /// Variables of one class have the same type.
    pub open spec fn consistent(self) -> bool {
        &&& self.labels.len() == self.bound.len()
        &&& forall|x: int, y: int|
            0 <= x < self.labels.len() && 0 <= y < self.labels.len() && #[trigger] self.same(x, y)
                ==> self.bound[x] == self.bound[y]
        &&& forall|x: int|
            0 <= x < self.labels.len() ==> 0 <= #[trigger] self.labels[x] < self.labels.len()
    }
}

/// Adding a variable keeps every class to one type.
pub proof fn lemma_fresh_consistent(s: Store)
    requires
        s.consistent(),
    ensures
        s.fresh().consistent(),
{
    let t = s.fresh();
    let n = s.labels.len() as int;
    assert forall|x: int, y: int|
        0 <= x < t.labels.len() && 0 <= y < t.labels.len() && #[trigger] t.same(
            x,
            y,
        ) implies t.bound[x] == t.bound[y] by {
        if x < n && y < n {
            assert(s.same(x, y));
        } else if x < n {
            assert(s.labels[x] < n);
        } else if y < n {
            assert(s.labels[y] < n);
        }
    }
}

/// Binding keeps every class to one type, and afterwards the class of `x` has
/// the type.
pub proof fn lemma_bind_consistent(s: Store, x: int, d: DtypeModel, symbol: Seq<char>)
    requires
        s.consistent(),
        0 <= x < s.labels.len(),
    ensures
        s.bind(x, d, symbol) matches Ok(t) ==> t.consistent() && t.labels.len() == s.labels.len()
            && t.bound[x] == Some(d),
{
    match s.bind(x, d, symbol) {
        Ok(t) => {
            assert forall|u: int, v: int|
                0 <= u < t.labels.len() && 0 <= v < t.labels.len() && #[trigger] t.same(
                    u,
                    v,
                ) implies t.bound[u] == t.bound[v] by {
                assert(s.same(u, v));
            }
            assert(s.same(x, x));
        },
        Err(_) => {},
    }
}

/// Joining keeps every class to one type, and afterwards `a` and `b` are in
/// one class.
pub proof fn lemma_union_consistent(s: Store, a: int, b: int, symbol: Seq<char>)
    requires
        s.consistent(),
        0 <= a < s.labels.len(),
        0 <= b < s.labels.len(),
    ensures
        s.union(a, b, symbol) matches Ok(t) ==> t.consistent() && t.labels.len() == s.labels.len()
            && t.same(a, b),
{
    match s.union(a, b, symbol) {
        Ok(t) => {
            if !s.same(a, b) {
                assert forall|u: int, v: int|
                    0 <= u < t.labels.len() && 0 <= v < t.labels.len() && #[trigger] t.same(
                        u,
                        v,
                    ) implies t.bound[u] == t.bound[v] by {
                    if !s.same(u, a) && !s.same(u, b) && !s.same(v, a) && !s.same(v, b) {
                        assert(s.same(u, v));
                    }
                }
            }
        },
        Err(_) => {},
    }
}

/// The type variables as trees: a variable points towards the root of its
/// class, and the root holds the type.
pub struct UnionFind {
    parent: Vec<usize>,
    rank: Vec<usize>,
    concrete: Vec<Option<Dtype>>,
    roots: Ghost<Seq<int>>,
    store: Ghost<Store>,
}

/// The model of an optional type.
pub open spec fn opt_type(o: Option<Dtype>) -> Option<DtypeModel> {
    match o {
        Some(d) => Some(d@),
        None => None,
    }
}

/// The positions that are their own roots.
spec fn root_set(roots: Seq<int>) -> Set<int> {
    Set::new(|x: int| 0 <= x < roots.len() && roots[x] == x)
}

proof fn lemma_root_set(roots: Seq<int>)
    ensures
        root_set(roots).finite(),
        root_set(roots).len() <= roots.len(),
{
    let r = vstd::set_lib::set_int_range(0, roots.len() as int);
    vstd::set_lib::lemma_int_range(0, roots.len() as int);
    assert(root_set(roots).subset_of(r));
    vstd::set_lib::lemma_len_subset(root_set(roots), r);
}

impl View for UnionFind {
    type V = Store;

    closed spec fn view(&self) -> Store {
        self.store@
    }
}

impl UnionFind {
    spec fn node_ok(&self, x: int) -> bool {
        let n = self.parent@.len();
        let p = self.parent@[x] as int;
        let r = self.roots@[x];
        &&& 0 <= p < n
        &&& 0 <= r < n
        &&& self.roots@[p] == r
        &&& self.parent@[r] == r
        &&& self.roots@[r] == r
        &&& p == x ==> r == x
        &&& r != x ==> self.rank@[x] < self.rank@[r]
        &&& p != x ==> self.rank@[x] < self.rank@[p]
        &&& self.rank@[x] + root_set(self.roots@).len() <= n
        &&& self.store@.bound[x] == opt_type(self.concrete@[r])
    }

    /// The trees are in order and hold what is known.
    pub closed spec fn wf(&self) -> bool {
        let n = self.parent@.len();
        &&& self.rank@.len() == n
        &&& self.concrete@.len() == n
        &&& self.roots@.len() == n
        &&& self.store@.consistent()
        &&& self.store@.labels.len() == n
        &&& forall|x: int| 0 <= x < n ==> #[trigger] self.node_ok(x)
        &&& forall|x: int, y: int|
            0 <= x < n && 0 <= y < n ==> (#[trigger] self.store@.same(x, y) <==> self.roots@[x]
                == self.roots@[y])
    }

    /// A well-formed store is consistent.
    pub proof fn lemma_wf(&self)
        requires
            self.wf(),
        ensures
            self@.consistent(),
    {
    }

    /// No variables.
    pub fn new() -> (uf: Self)
        ensures
            uf.wf(),
            uf@ == Store::empty(),
    {
        UnionFind {
            parent: Vec::new(),
            rank: Vec::new(),
            concrete: Vec::new(),
            roots: Ghost(Seq::empty()),
            store: Ghost(Store::empty()),
        }
    }

    /// A new variable.
    pub fn fresh(&mut self) -> (id: usize)
        requires
            old(self).wf(),
        ensures
            final(self).wf(),
            id == old(self)@.labels.len(),
            final(self)@ == old(self)@.fresh(),
    {
        let id: usize = self.parent.len();
        let ghost before = *self;
        self.parent.push(id);
        self.rank.push(0);
        self.concrete.push(None);
        proof {
            self.roots@ = self.roots@.push(id as int);
            self.store@ = self.store@.fresh();
            lemma_fresh_consistent(before.store@);
            let n = id as int;
            lemma_root_set(before.roots@);
            assert(root_set(self.roots@) =~= root_set(before.roots@).insert(n));
            assert forall|x: int| 0 <= x < self.parent@.len() implies #[trigger] self.node_ok(x) by {
                if x < n {
                    assert(before.node_ok(x));
                }
            }
            assert forall|x: int, y: int|
                0 <= x < self.parent@.len() && 0 <= y < self.parent@.len() implies (
            #[trigger] self.store@.same(x, y) <==> self.roots@[x] == self.roots@[y]) by {
                if x < n && y < n {
                    assert(before.store@.same(x, y) <==> before.roots@[x] == before.roots@[y]);
                } else if x < n {
                    assert(before.node_ok(x));
                    assert(before.store@.labels[x] < n);
                } else if y < n {
                    assert(before.node_ok(y));
                    assert(before.store@.labels[y] < n);
                }
            }
        }
        id
    }

    /// The root of the class of `x`; the way to it is shortened.
    fn find(&mut self, x: usize) -> (root: usize)
        requires
            old(self).wf(),
            x < old(self)@.labels.len(),
        ensures
            final(self).wf(),
            final(self)@ == old(self)@,
            final(self).roots == old(self).roots,
            final(self).rank == old(self).rank,
            final(self).concrete == old(self).concrete,
            root == old(self).roots@[x as int],
    {
        let ghost before = *self;
        let n: usize = self.parent.len();
        let mut root: usize = x;
        assert(self.node_ok(x as int));
        while self.parent[root] != root
            invariant
                self.wf(),
                n == self.parent@.len(),
                root < n,
                x < n,
                self.roots@[root as int] == self.roots@[x as int],
                *self == before,
            decreases n - self.rank@[root as int],
        {
            proof {
                assert(self.node_ok(root as int));
                assert(self.node_ok(self.parent@[root as int] as int));
                lemma_root_set(self.roots@);
            }
            root = self.parent[root];
        }
        proof {
            assert(self.node_ok(root as int));
        }
        let mut cur: usize = x;
        while self.parent[cur] != root
            invariant
                self.wf(),
                n == self.parent@.len(),
                cur < n,
                x < n,
                root < n,
                self.store == before.store,
                self.roots == before.roots,
                self.rank == before.rank,
                self.concrete == before.concrete,
                before.roots@[cur as int] == root,
                before.roots@[x as int] == root,
            decreases n - self.rank@[cur as int],
        {
            let ghost mid = *self;
            let next: usize = self.parent[cur];
            proof {
                assert(self.node_ok(cur as int));
                assert(self.node_ok(next as int));
                assert(self.node_ok(root as int));
                lemma_root_set(self.roots@);
            }
            self.parent.set(cur, root);
            proof {
                assert forall|y: int| 0 <= y < n implies #[trigger] self.node_ok(y) by {
                    assert(mid.node_ok(y));
                }
                assert forall|y: int, z: int| 0 <= y < n && 0 <= z < n implies (
                #[trigger] self.store@.same(y, z) <==> self.roots@[y] == self.roots@[z]) by {
                    assert(mid.store@.same(y, z) <==> mid.roots@[y] == mid.roots@[z]);
                }
            }
            cur = next;
        }
        root
    }

    /// The type of the class of `x`, if it is known.
    pub fn resolve(&mut self, x: usize) -> (d: Option<Dtype>)
        requires
            old(self).wf(),
            x < old(self)@.labels.len(),
        ensures
            final(self).wf(),
            final(self)@ == old(self)@,
            opt_type(d) == old(self)@.bound[x as int],
    {
        let root: usize = self.find(x);
        proof {
            assert(self.node_ok(x as int));
        }
        match &self.concrete[root] {
            Some(d) => Some(d.clone()),
            None => None,
        }
    }

    /// Gives the class of `x` a type.
    pub fn bind(&mut self, x: usize, dtype: Dtype, symbol: &String) -> (r: Result<(), Error>)
        requires
            old(self).wf(),
            x < old(self)@.labels.len(),
        ensures
            final(self).wf(),
            stored(r, old(self)@, final(self)@, old(self)@.bind(x as int, dtype@, symbol@)),
    {
        let root: usize = self.find(x);
        let ghost before = *self;
        proof {
            assert(self.node_ok(x as int));
        }
        match &self.concrete[root] {
            Some(existing) => {
                if existing.same(&dtype) {
                    return Ok(());
                }
                return Err(
                    Error::TypeMismatch {
                        symbol: symbol.clone(),
                        expected: existing.clone(),
                        actual: dtype,
                    },
                );
            },
            None => {},
        }
        let ghost d = dtype@;
        self.concrete.set(root, Some(dtype));
        proof {
            lemma_bind_consistent(before.store@, x as int, d, symbol@);
            self.store@ = before.store@.bind(x as int, d, symbol@)->Ok_0;
            let n = self.parent@.len();
            assert forall|y: int| 0 <= y < n implies #[trigger] self.node_ok(y) by {
                assert(before.node_ok(y));
                assert(before.store@.same(y, x as int) <==> before.roots@[y]
                    == before.roots@[x as int]);
            }
            assert forall|y: int, z: int| 0 <= y < n && 0 <= z < n implies (
            #[trigger] self.store@.same(y, z) <==> self.roots@[y] == self.roots@[z]) by {
                assert(before.store@.same(y, z) <==> before.roots@[y] == before.roots@[z]);
            }
        }
        Ok(())
    }

    /// Makes the classes of `a` and `b` one.
    pub fn union(&mut self, a: usize, b: usize, symbol: &String) -> (r: Result<(), Error>)
        requires
            old(self).wf(),
            a < old(self)@.labels.len(),
            b < old(self)@.labels.len(),
        ensures
            final(self).wf(),
            stored(r, old(self)@, final(self)@, old(self)@.union(a as int, b as int, symbol@)),
    {
        let ra: usize = self.find(a);
        let rb: usize = self.find(b);
        let ghost before = *self;
        proof {
            assert(self.node_ok(a as int));
            assert(self.node_ok(b as int));
            assert(self.store@.same(a as int, b as int) <==> self.roots@[a as int]
                == self.roots@[b as int]);
        }
        if ra == rb {
            return Ok(());
        }
        let merged: Option<Dtype> = match (&self.concrete[ra], &self.concrete[rb]) {
            (None, None) => None,
            (Some(t), None) => Some(t.clone()),
            (None, Some(t)) => Some(t.clone()),
            (Some(x), Some(y)) => {
                if !x.same(y) {
                    return Err(
                        Error::TypeMismatch {
                            symbol: symbol.clone(),
                            expected: x.clone(),
                            actual: y.clone(),
                        },
                    );
                }
                Some(x.clone())
            },
        };
        let rank_a: usize = self.rank[ra];
        let rank_b: usize = self.rank[rb];
        let (top, low) = if rank_a < rank_b {
            (rb, ra)
        } else {
            (ra, rb)
        };
        proof {
            assert(self.node_ok(ra as int));
            assert(self.node_ok(rb as int));
            lemma_root_set(self.roots@);
            assert(root_set(self.roots@).contains(ra as int));
            vstd::set_lib::lemma_len_subset(set![ra as int], root_set(self.roots@));
        }
        let n: usize = self.parent.len();
        assert(rank_a < n);
        if rank_a == rank_b {
            self.rank.set(top, rank_a + 1);
        }
        self.parent.set(low, top);
        let ghost m = opt_type(merged);
        self.concrete.set(top, merged);
        proof {
            self.store@ = before.store@.joined(a as int, b as int, m);
            self.roots@ = relinked(before.roots@, top as int, low as int);
            lemma_union_consistent(before.store@, a as int, b as int, symbol@);
            lemma_attached(before, *self, a as int, b as int, top as int, low as int);
        }
        Ok(())
    }
}

/// The roots after the tree at `low` hangs below `top`.
spec fn relinked(roots: Seq<int>, top: int, low: int) -> Seq<int> {
    Seq::new(
        roots.len(),
        |u: int|
            if roots[u] == low {
                top
            } else {
                roots[u]
            },
    )
}

/// Two trees become one.
proof fn lemma_attached(u: UnionFind, v: UnionFind, a: int, b: int, top: int, low: int)
    requires
        u.wf(),
        0 <= a < u.parent@.len(),
        0 <= b < u.parent@.len(),
        (top == u.roots@[a] && low == u.roots@[b]) || (top == u.roots@[b] && low == u.roots@[a]),
        top != low,
        u.rank@[low] <= u.rank@[top],
        v.parent@ == u.parent@.update(low, top as usize),
        v.rank@ == (if u.rank@[low] == u.rank@[top] {
            u.rank@.update(top, (u.rank@[top] + 1) as usize)
        } else {
            u.rank@
        }),
        u.rank@[top] < usize::MAX,
        v.concrete@.len() == u.concrete@.len(),
        forall|x: int|
            0 <= x < u.concrete@.len() && x != top ==> #[trigger] v.concrete@[x] == u.concrete@[x],
        v.roots@ == relinked(u.roots@, top, low),
        v.store@ == u.store@.joined(a, b, opt_type(v.concrete@[top])),
        v.store@.consistent(),
    ensures
        v.wf(),
{
    let n = u.parent@.len() as int;
    assert(u.node_ok(a) && u.node_ok(b));
    assert(u.node_ok(top) && u.node_ok(low));
    lemma_root_set(u.roots@);
    assert(root_set(v.roots@) =~= root_set(u.roots@).remove(low)) by {
        assert forall|x: int| root_set(v.roots@).contains(x) <==> root_set(u.roots@).remove(
            low,
        ).contains(x) by {
            if 0 <= x < n {
                assert(u.node_ok(x));
            }
        }
    }
    assert(root_set(u.roots@).contains(low));
    assert forall|x: int| 0 <= x < n implies #[trigger] v.node_ok(x) by {
        lemma_attached_node(u, v, a, b, top, low, x);
    }
    assert forall|x: int, y: int| 0 <= x < n && 0 <= y < n implies (#[trigger] v.store@.same(x, y)
        <==> v.roots@[x] == v.roots@[y]) by {
        assert(u.store@.same(x, y) <==> u.roots@[x] == u.roots@[y]);
        assert(u.store@.same(x, a) <==> u.roots@[x] == u.roots@[a]);
        assert(u.store@.same(x, b) <==> u.roots@[x] == u.roots@[b]);
        assert(u.store@.same(y, a) <==> u.roots@[y] == u.roots@[a]);
        assert(u.store@.same(y, b) <==> u.roots@[y] == u.roots@[b]);
    }
}

proof fn lemma_attached_node(
    u: UnionFind,
    v: UnionFind,
    a: int,
    b: int,
    top: int,
    low: int,
    x: int,
)
    requires
        u.wf(),
        0 <= a < u.parent@.len(),
        0 <= b < u.parent@.len(),
        0 <= x < u.parent@.len(),
        0 <= top < u.parent@.len(),
        0 <= low < u.parent@.len(),
        (top == u.roots@[a] && low == u.roots@[b]) || (top == u.roots@[b] && low == u.roots@[a]),
        top != low,
        u.rank@[low] <= u.rank@[top],
        v.parent@ == u.parent@.update(low, top as usize),
        v.rank@ == (if u.rank@[low] == u.rank@[top] {
            u.rank@.update(top, (u.rank@[top] + 1) as usize)
        } else {
            u.rank@
        }),
        u.rank@[top] < usize::MAX,
        v.concrete@.len() == u.concrete@.len(),
        forall|y: int|
            0 <= y < u.concrete@.len() && y != top ==> #[trigger] v.concrete@[y] == u.concrete@[y],
        v.roots@ == relinked(u.roots@, top, low),
        v.store@ == u.store@.joined(a, b, opt_type(v.concrete@[top])),
        root_set(v.roots@).len() + 1 == root_set(u.roots@).len(),
    ensures
        v.node_ok(x),
{
    assert(u.node_ok(x));
    assert(u.node_ok(a) && u.node_ok(b));
    assert(u.node_ok(top) && u.node_ok(low));
    let p = u.parent@[x] as int;
    assert(u.node_ok(p));
    assert(u.node_ok(u.roots@[x]));
    assert(u.store@.same(x, a) <==> u.roots@[x] == u.roots@[a]);
    assert(u.store@.same(x, b) <==> u.roots@[x] == u.roots@[b]);
}

/// The outcome of a change of the store: an error leaves it as it was.
pub open spec fn stored(
    r: Result<(), Error>,
    before: Store,
    after: Store,
    expected: Result<Store, ErrorModel>,
) -> bool {
    match r {
        Ok(_) => expected == Ok::<Store, ErrorModel>(after),
        Err(e) => expected == Err::<Store, ErrorModel>(e@) && after == before,
    }
}

/// A type that may not be known yet.
#[derive(Debug)]
pub enum Ty {
    Concrete(Dtype),
    Var(usize),
}

/// The mathematical model of a [`Ty`].
pub enum TyModel {
    Concrete(DtypeModel),
    Var(nat),
}

impl View for Ty {
    type V = TyModel;

    open spec fn view(&self) -> TyModel {
        match *self {
            Ty::Concrete(d) => TyModel::Concrete(d@),
            Ty::Var(v) => TyModel::Var(v as nat),
        }
    }
}

impl Clone for Ty {
    fn clone(&self) -> (copy: Self)
        ensures
            copy@ == self@,
    {
        match self {
            Ty::Concrete(d) => Ty::Concrete(d.clone()),
            Ty::Var(v) => Ty::Var(*v),
        }
    }
}

impl TyModel {
    /// A variable is one of the store.
    pub open spec fn within(self, s: Store) -> bool {
        self matches TyModel::Var(v) ==> v < s.labels.len()
    }
}

/// Two types are equal.
pub open spec fn unified(s: Store, a: TyModel, b: TyModel, symbol: Seq<char>) -> Result<
    Store,
    ErrorModel,
> {
    match (a, b) {
        (TyModel::Concrete(x), TyModel::Concrete(y)) => if x == y {
            Ok(s)
        } else {
            Err(ErrorModel::TypeMismatch { symbol, expected: x, actual: y })
        },
        (TyModel::Var(v), TyModel::Concrete(c)) => s.bind(v as int, c, symbol),
        (TyModel::Concrete(c), TyModel::Var(v)) => s.bind(v as int, c, symbol),
        (TyModel::Var(x), TyModel::Var(y)) => s.union(x as int, y as int, symbol),
    }
}

/// What the store knows of a type.
pub open spec fn meaning(s: Store, t: TyModel) -> Option<DtypeModel> {
    match t {
        TyModel::Concrete(d) => Some(d),
        TyModel::Var(v) => s.bound[v as int],
    }
}

/// After two types have been made equal, the store stays consistent and knows
/// the same of both.
pub proof fn lemma_unified_agree(s: Store, a: TyModel, b: TyModel, symbol: Seq<char>)
    requires
        s.consistent(),
        a.within(s),
        b.within(s),
    ensures
        unified(s, a, b, symbol) matches Ok(t) ==> t.consistent() && t.labels.len()
            == s.labels.len() && meaning(t, a) == meaning(t, b),
{
    match (a, b) {
        (TyModel::Var(v), TyModel::Concrete(c)) => {
            lemma_bind_consistent(s, v as int, c, symbol);
        },
        (TyModel::Concrete(c), TyModel::Var(v)) => {
            lemma_bind_consistent(s, v as int, c, symbol);
        },
        (TyModel::Var(x), TyModel::Var(y)) => {
            lemma_union_consistent(s, x as int, y as int, symbol);
        },
        _ => {},
    }
}

/// Makes two types equal.
pub fn unify(uf: &mut UnionFind, a: &Ty, b: &Ty, symbol: &String) -> (r: Result<(), Error>)
    requires
        old(uf).wf(),
        a@.within(old(uf)@),
        b@.within(old(uf)@),
    ensures
        final(uf).wf(),
        stored(r, old(uf)@, final(uf)@, unified(old(uf)@, a@, b@, symbol@)),
{
    match (a, b) {
        (Ty::Concrete(x), Ty::Concrete(y)) => {
            if x.same(y) {
                Ok(())
            } else {
                Err(
                    Error::TypeMismatch {
                        symbol: symbol.clone(),
                        expected: x.clone(),
                        actual: y.clone(),
                    },
                )
            }
        },
        (Ty::Var(v), Ty::Concrete(c)) => uf.bind(*v, c.clone(), symbol),
        (Ty::Concrete(c), Ty::Var(v)) => uf.bind(*v, c.clone(), symbol),
        (Ty::Var(x), Ty::Var(y)) => uf.union(*x, *y, symbol),
    }
}

} // verus!
