use vstd::prelude::*;
use crate::error::{CompileError, ErrorView};
use crate::types::Constrainable;

verus! {

/// A handle on one constraint cell of a `Cells` store.
#[derive(Clone, Copy, Debug, PartialEq, Eq, Structural)]
pub struct CRef {
    pub index: usize,
}

/// Work deferred until a cell's value is known. The store keeps these in registration
/// order and hands each one back exactly once, when it is due; the caller runs it.
#[derive(Clone, Copy, Debug, PartialEq, Eq, Structural)]
pub enum Constraint {
    /// A callback registered with `constrain`, named by the caller's token.
    Callback(u64),
    /// A parked unit of work, registered by `poll`, to be scheduled again.
    Wake(u64),
    /// A derivation registered by `then`: the work named by `token` computes, from the
    /// value, a cell that is then unified into `slot`.
    Derive { token: u64, slot: CRef },
}

/// The stored state of one cell.
pub enum Constrained<T> {
    Known(T),
    Unknown { debug_names: Vec<String>, error: Option<CompileError>, constraints: Vec<Constraint> },
    Ref(CRef),
}

/// What a cell is, seen through its representative.
pub enum CellState<T> {
    Known(T),
    Unknown { tags: Seq<String>, pending: Seq<Constraint>, error: Option<CompileError> },
}

/// A store of constraint cells, merged by union-find.
pub struct Cells<T> {
    nodes: Vec<Constrained<T>>,
    repr: Ghost<Seq<int>>,
    rank: Ghost<Seq<nat>>,
    bound: Ghost<nat>,
}

/// The state that a stored node gives its class.
pub open spec fn node_state<T>(node: Constrained<T>) -> CellState<T> {
    match node {
        Constrained::Known(t) => CellState::Known(t),
        Constrained::Unknown { debug_names, error, constraints } => CellState::Unknown {
            tags: debug_names@,
            pending: constraints@,
            error,
        },
        Constrained::Ref(_) => CellState::Unknown {
            tags: Seq::empty(),
            pending: Seq::empty(),
            error: None,
        },
    }
}

impl<T> Cells<T> {
    /// The number of cells in the store.
    pub closed spec fn len(&self) -> nat {
        self.nodes@.len()
    }

    /// Whether `r` names a cell of this store.
    pub open spec fn valid(&self, r: CRef) -> bool {
        r.index < self.len()
    }

    closed spec fn node_ok(&self, i: int) -> bool {
        let n = self.nodes@.len();
        let ri = self.repr@[i];
        &&& 0 <= ri < n
        &&& !(self.nodes@[ri] is Ref)
        &&& self.rank@[i] <= self.rank@[ri]
        &&& self.rank@[i] < self.bound@
        &&& match self.nodes@[i] {
            Constrained::Ref(p) => {
                &&& p.index < n
                &&& self.rank@[i] < self.rank@[p.index as int]
                &&& self.repr@[p.index as int] == ri
            },
            _ => ri == i,
        }
    }

    /// The store's invariant: every alias chain ends at a representative.
    pub closed spec fn wf(&self) -> bool {
        &&& self.repr@.len() == self.nodes@.len()
        &&& self.rank@.len() == self.nodes@.len()
        &&& forall|i: int| 0 <= i < self.nodes@.len() ==> #[trigger] self.node_ok(i)
    }

    /// The representative of cell `i`.
    pub closed spec fn root(&self, i: int) -> int {
        self.repr@[i]
    }

    /// The cell that cell `i` is an alias of, if it is one.
    pub closed spec fn alias_of(&self, i: int) -> Option<int> {
        match self.nodes@[i] {
            Constrained::Ref(p) => Some(p.index as int),
            _ => None,
        }
    }

    /// The state of cell `i`, read at its representative.
    pub closed spec fn state(&self, i: int) -> CellState<T> {
        node_state(self.nodes@[self.repr@[i]])
    }

    /// Whether cell `i` has a known value.
    pub open spec fn known(&self, i: int) -> bool {
        self.state(i) is Known
    }

    /// The known value of cell `i`.
    pub open spec fn value(&self, i: int) -> T {
        self.state(i)->Known_0
    }

    /// The error that poisons cell `i`, if any.
    pub open spec fn poison(&self, i: int) -> Option<CompileError> {
        match self.state(i) {
            CellState::Unknown { error, .. } => error,
            _ => None,
        }
    }

    /// The work waiting on cell `i`, in registration order.
    pub open spec fn pending(&self, i: int) -> Seq<Constraint> {
        match self.state(i) {
            CellState::Unknown { pending, .. } => pending,
            _ => Seq::empty(),
        }
    }

    /// The debug tags of cell `i`.
    pub open spec fn tags(&self, i: int) -> Seq<String> {
        match self.state(i) {
            CellState::Unknown { tags, .. } => tags,
            _ => Seq::empty(),
        }
    }

    /// Whether two stores hold the same cells, with the same representatives and states.
    pub open spec fn same_view(&self, other: &Self) -> bool {
        &&& self.len() == other.len()
        &&& forall|i: int|
            #![trigger self.root(i)]
            #![trigger self.state(i)]
            0 <= i < self.len() ==> self.root(i) == other.root(i) && self.state(i) == other.state(i)
    }

    /// An empty store.
    pub fn new() -> (r: Cells<T>)
        ensures
            r.wf(),
            r.len() == 0,
    {
        Cells { nodes: Vec::new(), repr: Ghost(Seq::empty()), rank: Ghost(Seq::empty()), bound: Ghost(0) }
    }

    /// A representative is its own representative, and every cell has the state of its
    /// representative.
    pub proof fn lemma_root_is_root(&self, i: int)
        requires
            self.wf(),
            0 <= i < self.len(),
        ensures
            0 <= self.root(i) < self.len(),
            self.root(self.root(i)) == self.root(i),
            self.state(i) == self.state(self.root(i)),
    {
        assert(self.node_ok(i));
        assert(self.node_ok(self.repr@[i]));
    }

    /// The representative of cell `i`, without changing the store.
    fn root_of(&self, i: usize) -> (r: usize)
        requires
            self.wf(),
            i < self.len(),
        ensures
            r == self.root(i as int),
    {
        let mut j: usize = i;
        loop
            invariant
                self.wf(),
                j < self.len(),
                self.repr@[j as int] == self.repr@[i as int],
            decreases self.bound@ - self.rank@[j as int],
        {
            assert(self.node_ok(j as int));
            match &self.nodes[j] {
                Constrained::Ref(p) => {
                    assert(self.node_ok(p.index as int));
                    j = p.index;
                },
                _ => {
                    return j;
                },
            }
        }
    }

    /// The representative of cell `i`; every cell on the way is made to point at it.
    fn find_root(&mut self, i: usize) -> (r: usize)
        requires
            old(self).wf(),
            i < old(self).len(),
        ensures
            final(self).wf(),
            final(self).same_view(old(self)),
            final(self).repr@ == old(self).repr@,
            final(self).rank@ == old(self).rank@,
            final(self).bound@ == old(self).bound@,
            r == old(self).root(i as int),
            final(self).alias_of(i as int) == (if r == i {
                None
            } else {
                Some(r as int)
            }),
        decreases old(self).bound@ - old(self).rank@[i as int],
    {
        assert(self.node_ok(i as int));
        let p: usize = match &self.nodes[i] {
            Constrained::Ref(p) => p.index,
            _ => {
                return i;
            },
        };
        assert(self.node_ok(p as int));
        let r = self.find_root(p);
        let ghost mid = *self;
        self.nodes.set(i, Constrained::Ref(CRef { index: r }));
        assert forall|j: int| 0 <= j < self.nodes@.len() implies #[trigger] self.node_ok(j) by {
            assert(mid.node_ok(j));
            assert(mid.node_ok(mid.repr@[j]));
        }
        assert forall|j: int| 0 <= j < self.len() implies #[trigger] self.root(j) == old(self).root(j)
            && self.state(j) == old(self).state(j) by {
            assert(mid.node_ok(j));
            assert(mid.node_ok(mid.repr@[j]));
            assert(mid.root(j) == old(self).root(j) && mid.state(j) == old(self).state(j));
            assert(mid.repr@[j] != i);
        }
        r
    }

    /// `post` is this store with one new cell at its end; the other cells are as they were.
    pub open spec fn extended(&self, post: &Self) -> bool {
        &&& post.len() == self.len() + 1
        &&& post.root(self.len() as int) == self.len()
        &&& forall|i: int|
            #![trigger post.root(i)]
            #![trigger post.state(i)]
            0 <= i < self.len() ==> post.root(i) == self.root(i) && post.state(i) == self.state(i)
    }

    /// `post` is this store with the classes of `keep` and `gone` merged under `keep`,
    /// in state `st`; the other classes are as they were.
    pub open spec fn merged(&self, post: &Self, keep: int, gone: int, st: CellState<T>) -> bool {
        &&& post.len() == self.len()
        &&& forall|i: int|
            0 <= i < self.len() ==> #[trigger] post.root(i) == (if self.root(i) == keep
                || self.root(i) == gone {
                keep
            } else {
                self.root(i)
            })
        &&& forall|i: int|
            0 <= i < self.len() ==> #[trigger] post.state(i) == (if self.root(i) == keep
                || self.root(i) == gone {
                st
            } else {
                self.state(i)
            })
    }

    /// `post` is this store with `c` appended to the work waiting on the unknown cell `a`.
    pub open spec fn appended(&self, post: &Self, a: int, c: Constraint) -> bool {
        &&& post.len() == self.len()
        &&& forall|i: int| 0 <= i < self.len() ==> #[trigger] post.root(i) == self.root(i)
        &&& forall|i: int|
            0 <= i < self.len() ==> #[trigger] post.state(i) == (if self.root(i) == self.root(a) {
                CellState::Unknown {
                    tags: self.tags(a),
                    pending: self.pending(a).push(c),
                    error: self.poison(a),
                }
            } else {
                self.state(i)
            })
    }

    /// What `constrain` does: a poisoned cell forwards its error, a known cell hands the
    /// work back to run now, an unknown cell keeps it.
    pub open spec fn constrain_rel(
        &self,
        a: int,
        c: Constraint,
        post: &Self,
        r: Result<Vec<Constraint>, CompileError>,
    ) -> bool {
        if self.poison(a) is Some {
            &&& post.same_view(self)
            &&& r is Err
            &&& r->Err_0@ == self.poison(a)->0@
        } else if self.known(a) {
            &&& post.same_view(self)
            &&& r is Ok
            &&& r->Ok_0@ == seq![c]
        } else {
            &&& self.appended(post, a, c)
            &&& r is Ok
            &&& r->Ok_0@ == Seq::<Constraint>::empty()
        }
    }

    /// What `poll` does: a known cell is ready, a poisoned one yields its error, an
    /// unknown one parks the unit of work `w` on itself.
    pub open spec fn poll_rel(&self, a: int, w: u64, post: &Self, r: Polled) -> bool {
        if self.poison(a) is Some {
            &&& post.same_view(self)
            &&& r is Failed
            &&& r->Failed_0@ == self.poison(a)->0@
        } else if self.known(a) {
            &&& post.same_view(self)
            &&& r is Ready
        } else {
            &&& self.appended(post, a, Constraint::Wake(w))
            &&& r is Pending
        }
    }

    /// Appends a representative cell.
    fn add_node(&mut self, node: Constrained<T>) -> (r: usize)
        requires
            old(self).wf(),
            !(node is Ref),
        ensures
            final(self).wf(),
            old(self).extended(final(self)),
            final(self).state(r as int) == node_state(node),
            r == old(self).len(),
    {
        let ghost n = self.nodes@.len();
        let r = self.nodes.len();
        self.nodes.push(node);
        self.repr = Ghost(self.repr@.push(n as int));
        self.rank = Ghost(self.rank@.push(0));
        self.bound = Ghost(if self.bound@ == 0 { 1 } else { self.bound@ });
        assert forall|j: int| 0 <= j < self.nodes@.len() implies #[trigger] self.node_ok(j) by {
            if j < n {
                assert(old(self).node_ok(j));
            }
        }
        assert forall|j: int| 0 <= j < old(self).len() implies #[trigger] self.root(j) == old(self).root(j)
            && self.state(j) == old(self).state(j) by {
            assert(old(self).node_ok(j));
        }
        r
    }

    /// Merges the class of `gone` into that of `keep`. An unknown, unpoisoned `keep`
    /// absorbs the work and tags of `gone`; for a known `keep`, the work of `gone` is
    /// returned, due now; a poisoned `keep` stays as it is, and the work of `gone` never
    /// runs.
    fn link(&mut self, keep: usize, gone: usize) -> (fired: Vec<Constraint>)
        requires
            old(self).wf(),
            keep < old(self).len(),
            gone < old(self).len(),
            keep != gone,
            old(self).root(keep as int) == keep,
            old(self).root(gone as int) == gone,
            old(self).poison(gone as int) is None,
            !old(self).known(gone as int),
        ensures
            final(self).wf(),
            old(self).known(keep as int) ==> fired@ == old(self).pending(gone as int)
                && old(self).merged(final(self), keep as int, gone as int, old(self).state(keep as int)),
            old(self).poison(keep as int) is Some ==> fired@ == Seq::<Constraint>::empty()
                && old(self).merged(final(self), keep as int, gone as int, old(self).state(keep as int)),
            !old(self).known(keep as int) && old(self).poison(keep as int) is None ==> fired@ == Seq::<Constraint>::empty()
                && old(self).merged(
                final(self),
                keep as int,
                gone as int,
                CellState::Unknown {
                    tags: old(self).tags(keep as int) + old(self).tags(gone as int),
                    pending: old(self).pending(keep as int) + old(self).pending(gone as int),
                    error: None,
                },
            ),
    {
        proof {
            assert(self.node_ok(keep as int));
            assert(self.node_ok(gone as int));
        }
        let mut fired: Vec<Constraint> = Vec::new();
        if self.poison_of(keep).is_none() {
            let mut gone_tags: Vec<String> = Vec::new();
            match &mut self.nodes[gone] {
                Constrained::Unknown { debug_names, constraints, .. } => {
                    std::mem::swap(constraints, &mut fired);
                    std::mem::swap(debug_names, &mut gone_tags);
                },
                _ => {},
            }
            match &mut self.nodes[keep] {
                Constrained::Unknown { debug_names, constraints, .. } => {
                    constraints.append(&mut fired);
                    debug_names.append(&mut gone_tags);
                },
                _ => {},
            }
        }
        self.nodes.set(gone, Constrained::Ref(CRef { index: keep }));
        let ghost old_repr = self.repr@;
        let ghost rk = self.rank@[keep as int];
        let ghost rg = self.rank@[gone as int];
        let ghost nr: nat = if rk > rg { rk } else { rg + 1 };
        self.repr = Ghost(
            Seq::new(
                old_repr.len(),
                |j: int|
                    if old_repr[j] == gone as int {
                        keep as int
                    } else {
                        old_repr[j]
                    },
            ),
        );
        self.rank = Ghost(self.rank@.update(keep as int, nr));
        self.bound = Ghost(if self.bound@ <= nr { nr + 1 } else { self.bound@ });
        assert forall|j: int| 0 <= j < self.nodes@.len() implies #[trigger] self.node_ok(j) by {
            assert(old(self).node_ok(j));
            assert(old(self).node_ok(old(self).repr@[j]));
            match old(self).nodes@[j] {
                Constrained::Ref(p) => {
                    assert(old(self).node_ok(p.index as int));
                },
                _ => {},
            }
        }
        assert forall|j: int| 0 <= j < self.len() implies #[trigger] self.root(j) == (if old(self).root(j) == keep
                || old(self).root(j) == gone {
                keep as int
            } else {
                old(self).root(j)
            }) by {
            assert(old(self).node_ok(j));
        }
        assert forall|j: int| 0 <= j < self.len() implies #[trigger] self.state(j) == (if old(self).root(j) == keep
                || old(self).root(j) == gone {
                if old(self).known(keep as int) || old(self).poison(keep as int) is Some { old(self).state(keep as int) } else {
                CellState::Unknown {
                    tags: old(self).tags(keep as int) + old(self).tags(gone as int),
                    pending: old(self).pending(keep as int) + old(self).pending(gone as int),
                    error: None,
                } }
            } else {
                old(self).state(j)
            }) by {
            assert(old(self).node_ok(j));
            assert(old(self).node_ok(old(self).repr@[j]));
        }
        fired
    }
}

impl<T> Cells<T> {
    /// Adds `c` to the work waiting on the unknown representative `a`.
    fn park(&mut self, a: usize, c: Constraint)
        requires
            old(self).wf(),
            a < old(self).len(),
            old(self).root(a as int) == a,
            !old(self).known(a as int),
        ensures
            final(self).wf(),
            old(self).appended(final(self), a as int, c),
    {
        proof {
            assert(self.node_ok(a as int));
        }
        match &mut self.nodes[a] {
            Constrained::Unknown { constraints, .. } => constraints.push(c),
            _ => {},
        }
        assert forall|j: int| 0 <= j < self.nodes@.len() implies #[trigger] self.node_ok(j) by {
            assert(old(self).node_ok(j));
        }
        assert forall|j: int| 0 <= j < self.len() implies #[trigger] self.state(j) == (if old(self).root(j) == old(self).root(a as int) {
                CellState::Unknown {
                    tags: old(self).tags(a as int),
                    pending: old(self).pending(a as int).push(c),
                    error: old(self).poison(a as int),
                }
            } else {
                old(self).state(j)
            }) by {
            assert(old(self).node_ok(j));
        }
    }

    /// Whether the representative `a` is poisoned, and by what.
    fn poison_of(&self, a: usize) -> (r: Option<&CompileError>)
        requires
            self.wf(),
            a < self.len(),
            self.root(a as int) == a,
        ensures
            r is Some <==> self.poison(a as int) is Some,
            r is Some ==> *r->Some_0 == self.poison(a as int)->Some_0,
    {
        match &self.nodes[a] {
            Constrained::Unknown { error: Some(e), .. } => Some(e),
            _ => None,
        }
    }

    /// Whether the representative `a` is known.
    fn known_at(&self, a: usize) -> (r: bool)
        requires
            self.wf(),
            a < self.len(),
            self.root(a as int) == a,
        ensures
            r == self.known(a as int),
    {
        match &self.nodes[a] {
            Constrained::Known(_) => true,
            _ => false,
        }
    }
}

impl<T: Constrainable> Cells<T> {
    /// What `unify` does. Cells of one class are left alone. Two poisoned sides forward
    /// both errors, the first operand's as primary. A poisoned side forwards its error;
    /// an unknown other side then joins the poisoned class, whose work is never run. Two
    /// known values are unified structurally, failing with the payload's error, and
    /// nothing is merged. An unknown class joins a known one, and its waiting work is due now, in
    /// registration order. Two unknown classes merge under the first, which absorbs the
    /// work and tags of the second.
    pub open spec fn unify_rel(
        &self,
        a: int,
        b: int,
        post: &Self,
        r: Result<Vec<Constraint>, CompileError>,
    ) -> bool {
        let ra = self.root(a);
        let rb = self.root(b);
        if ra == rb {
            &&& post.same_view(self)
            &&& r is Ok
            &&& r->Ok_0@ == Seq::<Constraint>::empty()
        } else if self.poison(a) is Some && self.poison(b) is Some {
            &&& post.same_view(self)
            &&& r is Err
            &&& r->Err_0@ == ErrorView::Multiple(seq![self.poison(a)->0@, self.poison(b)->0@])
        } else if self.poison(a) is Some {
            &&& (if self.known(b) {
                post.same_view(self)
            } else {
                self.merged(post, ra, rb, self.state(a))
            })
            &&& r is Err
            &&& r->Err_0@ == self.poison(a)->0@
        } else if self.poison(b) is Some {
            &&& (if self.known(a) {
                post.same_view(self)
            } else {
                self.merged(post, rb, ra, self.state(b))
            })
            &&& r is Err
            &&& r->Err_0@ == self.poison(b)->0@
        } else if self.known(a) && self.known(b) {
            &&& post.same_view(self)
            &&& (r is Ok <==> self.value(a).unifies_with(&self.value(b)))
            &&& r is Ok ==> r->Ok_0@ == Seq::<Constraint>::empty()
            &&& r is Err ==> r->Err_0@ == self.value(a).unify_error(&self.value(b))
        } else if self.known(a) {
            &&& self.merged(post, ra, rb, self.state(a))
            &&& r is Ok
            &&& r->Ok_0@ == self.pending(b)
        } else if self.known(b) {
            &&& self.merged(post, rb, ra, self.state(b))
            &&& r is Ok
            &&& r->Ok_0@ == self.pending(a)
        } else {
            &&& self.merged(
                post,
                ra,
                rb,
                CellState::Unknown {
                    tags: self.tags(a) + self.tags(b),
                    pending: self.pending(a) + self.pending(b),
                    error: None,
                },
            )
            &&& r is Ok
            &&& r->Ok_0@ == Seq::<Constraint>::empty()
        }
    }

    /// Whether `unify(a, b)` merges two classes: they differ, and neither both sides
    /// are poisoned, nor both known, nor one poisoned and the other known.
    pub open spec fn unify_merges(&self, a: int, b: int) -> bool {
        &&& self.root(a) != self.root(b)
        &&& !(self.poison(a) is Some && self.poison(b) is Some)
        &&& !(self.known(a) && self.known(b))
        &&& !(self.poison(a) is Some && self.known(b))
        &&& !(self.known(a) && self.poison(b) is Some)
    }

    /// The representative that a merging `unify(a, b)` keeps: a poisoned side's, else a
    /// known side's, else the first operand's.
    pub open spec fn unify_keep(&self, a: int, b: int) -> int {
        if self.poison(a) is Some {
            self.root(a)
        } else if self.poison(b) is Some {
            self.root(b)
        } else if self.known(b) && !self.known(a) {
            self.root(b)
        } else {
            self.root(a)
        }
    }

    /// The state of the class that a merging `unify(a, b)` makes.
    pub open spec fn unify_merged_state(&self, a: int, b: int) -> CellState<T> {
        if self.poison(a) is Some || self.known(a) {
            self.state(a)
        } else if self.poison(b) is Some || self.known(b) {
            self.state(b)
        } else {
            CellState::Unknown {
                tags: self.tags(a) + self.tags(b),
                pending: self.pending(a) + self.pending(b),
                error: None,
            }
        }
    }

    proof fn lemma_unify_rel_transfer(
        s0: Self,
        mid: Self,
        a: int,
        b: int,
        post: Self,
        r: Result<Vec<Constraint>, CompileError>,
    )
        requires
            s0.wf(),
            mid.wf(),
            mid.same_view(&s0),
            0 <= a < s0.len(),
            0 <= b < s0.len(),
            mid.unify_rel(mid.root(a), mid.root(b), &post, r),
        ensures
            s0.unify_rel(a, b, &post, r),
    {
        let ra = mid.root(a);
        let rb = mid.root(b);
        mid.lemma_root_is_root(a);
        mid.lemma_root_is_root(b);
        assert(mid.root(a) == s0.root(a) && mid.state(a) == s0.state(a));
        assert(mid.root(b) == s0.root(b) && mid.state(b) == s0.state(b));
        assert forall|i: int| 0 <= i < s0.len() implies #[trigger] s0.root(i) == mid.root(i)
            && s0.state(i) == mid.state(i) by {
            assert(mid.root(i) == s0.root(i) && mid.state(i) == s0.state(i));
        }
        if ra != rb {
            assert(mid.state(ra) == mid.state(a));
            assert(mid.state(rb) == mid.state(b));
            if mid.unify_merges(a, b) {
                let keep = mid.unify_keep(a, b);
                let gone = if keep == ra { rb } else { ra };
                let st = mid.unify_merged_state(a, b);
                assert(mid.merged(&post, keep, gone, st));
                assert forall|i: int| 0 <= i < s0.len() implies #[trigger] post.root(i) == (if s0.root(i) == keep
                    || s0.root(i) == gone {
                    keep
                } else {
                    s0.root(i)
                }) && post.state(i) == (if s0.root(i) == keep || s0.root(i) == gone {
                    st
                } else {
                    s0.state(i)
                }) by {
                    assert(mid.root(i) == s0.root(i) && mid.state(i) == s0.state(i));
                    assert(post.root(i) == (if mid.root(i) == keep || mid.root(i) == gone {
                        keep
                    } else {
                        mid.root(i)
                    }));
                    assert(post.state(i) == (if mid.root(i) == keep || mid.root(i) == gone {
                        st
                    } else {
                        mid.state(i)
                    }));
                }
                assert(s0.merged(&post, keep, gone, st));
            } else {
                assert(post.same_view(&mid));
                assert forall|i: int| 0 <= i < s0.len() implies #[trigger] post.root(i) == s0.root(i)
                    && post.state(i) == s0.state(i) by {
                    assert(mid.root(i) == s0.root(i) && mid.state(i) == s0.state(i));
                    assert(post.root(i) == mid.root(i) && post.state(i) == mid.state(i));
                }
            }
        }
    }

    /// Unifies two distinct representatives.
    fn unify_roots(&mut self, ra: usize, rb: usize) -> (r: Result<Vec<Constraint>, CompileError>)
        requires
            old(self).wf(),
            ra < old(self).len(),
            rb < old(self).len(),
            ra != rb,
            old(self).root(ra as int) == ra,
            old(self).root(rb as int) == rb,
        ensures
            final(self).wf(),
            old(self).unify_rel(ra as int, rb as int, final(self), r),
    {
        match (self.poison_of(ra), self.poison_of(rb)) {
            (Some(ea), Some(eb)) => {
                return Err(CompileError::multiple(ea.duplicate(), eb.duplicate()));
            },
            (Some(_), None) | (None, Some(_)) => {},
            (None, None) => {},
        }
        let ka = self.known_at(ra);
        let kb = self.known_at(rb);
        if let Some(e) = self.poison_of(ra) {
            let err = e.duplicate();
            if !kb {
                self.link(ra, rb);
            }
            return Err(err);
        }
        if let Some(e) = self.poison_of(rb) {
            let err = e.duplicate();
            if !ka {
                self.link(rb, ra);
            }
            return Err(err);
        }
        if ka && kb {
            match (&self.nodes[ra], &self.nodes[rb]) {
                (Constrained::Known(x), Constrained::Known(y)) => match x.unify(y) {
                    Ok(()) => Ok(Vec::new()),
                    Err(e) => Err(e),
                },
                _ => Ok(Vec::new()),
            }
        } else if kb {
            Ok(self.link(rb, ra))
        } else {
            Ok(self.link(ra, rb))
        }
    }
}

/// The outcome of polling a cell.
pub enum Polled {
    /// The cell's value is known.
    Ready,
    /// The value is not known yet; the unit of work is parked on the cell.
    Pending,
    /// The cell is poisoned by this error.
    Failed(CompileError),
}

/// A new cell holding the known value `t`.
pub fn mkcref<T>(cells: &mut Cells<T>, t: T) -> (r: CRef)
    requires
        old(cells).wf(),
    ensures
        final(cells).wf(),
        old(cells).extended(final(cells)),
        r.index == old(cells).len(),
        final(cells).state(r.index as int) == CellState::Known(t),
{
    CRef::new_known(cells, t)
}

impl CRef {
    /// A new unknown cell, tagged `debug_name` for diagnostics.
    pub fn new_unknown<T>(cells: &mut Cells<T>, debug_name: &str) -> (r: CRef)
        requires
            old(cells).wf(),
        ensures
            final(cells).wf(),
            old(cells).extended(final(cells)),
            r.index == old(cells).len(),
            !final(cells).known(r.index as int),
            final(cells).poison(r.index as int) is None,
            final(cells).pending(r.index as int) == Seq::<Constraint>::empty(),
            final(cells).tags(r.index as int).len() == 1,
            final(cells).tags(r.index as int)[0]@ == debug_name@,
    {
        let tags = vec![debug_name.to_owned()];
        let i = cells.add_node(
            Constrained::Unknown { debug_names: tags, error: None, constraints: Vec::new() },
        );
        CRef { index: i }
    }

    /// A new cell poisoned by `e`: it never becomes known, and it forwards `e` to every
    /// consumer.
    pub fn new_error<T>(cells: &mut Cells<T>, e: CompileError) -> (r: CRef)
        requires
            old(cells).wf(),
        ensures
            final(cells).wf(),
            old(cells).extended(final(cells)),
            r.index == old(cells).len(),
            !final(cells).known(r.index as int),
            final(cells).poison(r.index as int) == Some(e),
            final(cells).pending(r.index as int) == Seq::<Constraint>::empty(),
            final(cells).tags(r.index as int).len() == 1,
    {
        let tags = vec!["error".to_owned()];
        let i = cells.add_node(
            Constrained::Unknown { debug_names: tags, error: Some(e), constraints: Vec::new() },
        );
        CRef { index: i }
    }

    /// A new cell holding the known value `t`.
    pub fn new_known<T>(cells: &mut Cells<T>, t: T) -> (r: CRef)
        requires
            old(cells).wf(),
        ensures
            final(cells).wf(),
            old(cells).extended(final(cells)),
            r.index == old(cells).len(),
            final(cells).state(r.index as int) == CellState::Known(t),
    {
        let i = cells.add_node(Constrained::Known(t));
        CRef { index: i }
    }

    /// A new cell: known for `Ok`, poisoned for `Err`.
    pub fn new_result<T>(cells: &mut Cells<T>, res: Result<T, CompileError>) -> (r: CRef)
        requires
            old(cells).wf(),
        ensures
            final(cells).wf(),
            old(cells).extended(final(cells)),
            r.index == old(cells).len(),
            res is Ok ==> final(cells).state(r.index as int) == CellState::Known(res->Ok_0),
            res is Err ==> !final(cells).known(r.index as int) && final(cells).poison(r.index as int)
                == Some(res->Err_0) && final(cells).pending(r.index as int)
                == Seq::<Constraint>::empty(),
    {
        match res {
            Ok(t) => CRef::new_known(cells, t),
            Err(e) => CRef::new_error(cells, e),
        }
    }

    /// The representative of this cell. Every cell on the alias chain is made to point
    /// at it directly; no cell changes its class or state.
    pub fn find<T>(&self, cells: &mut Cells<T>) -> (r: CRef)
        requires
            old(cells).wf(),
            old(cells).valid(*self),
        ensures
            final(cells).wf(),
            final(cells).same_view(old(cells)),
            r.index == old(cells).root(self.index as int),
            final(cells).root(r.index as int) == r.index,
            final(cells).alias_of(self.index as int) == (if r == *self {
                None
            } else {
                Some(r.index as int)
            }),
    {
        proof {
            cells.lemma_root_is_root(self.index as int);
        }
        let r = cells.find_root(self.index);
        CRef { index: r }
    }

    /// Whether this cell's value is known.
    pub fn is_known<T>(&self, cells: &Cells<T>) -> (r: bool)
        requires
            cells.wf(),
            cells.valid(*self),
        ensures
            r == cells.known(self.index as int),
    {
        proof {
            cells.lemma_root_is_root(self.index as int);
        }
        let a = cells.root_of(self.index);
        cells.known_at(a)
    }

    /// The value of a cell that must be known by now; an unknown cell here is a defect of
    /// the compiler, reported as an internal error.
    pub fn must<'a, T>(&self, cells: &'a Cells<T>) -> (r: Result<&'a T, CompileError>)
        requires
            cells.wf(),
            cells.valid(*self),
        ensures
            r is Ok <==> cells.known(self.index as int),
            r is Ok ==> *r->Ok_0 == cells.value(self.index as int),
            r is Err ==> r->Err_0 is InternalError,
    {
        proof {
            cells.lemma_root_is_root(self.index as int);
        }
        let a = cells.root_of(self.index);
        match &cells.nodes[a] {
            Constrained::Known(t) => Ok(t),
            _ => Err(CompileError::internal("Unknown cannot exist at runtime")),
        }
    }

    /// The error that poisons this cell, if any.
    pub fn poison<'a, T>(&self, cells: &'a Cells<T>) -> (r: Option<&'a CompileError>)
        requires
            cells.wf(),
            cells.valid(*self),
        ensures
            r is Some <==> cells.poison(self.index as int) is Some,
            r is Some ==> *r->Some_0 == cells.poison(self.index as int)->Some_0,
    {
        proof {
            cells.lemma_root_is_root(self.index as int);
        }
        let a = cells.root_of(self.index);
        cells.poison_of(a)
    }

    /// Registers `c` to run once this cell's value is known. Returns the work that is due
    /// now: `c` itself when the value is already known, nothing otherwise. A poisoned
    /// cell never runs `c` and returns its error.
    pub fn constrain<T>(&self, cells: &mut Cells<T>, c: Constraint) -> (r: Result<
        Vec<Constraint>,
        CompileError,
    >)
        requires
            old(cells).wf(),
            old(cells).valid(*self),
        ensures
            final(cells).wf(),
            old(cells).constrain_rel(self.index as int, c, final(cells), r),
    {
        proof {
            cells.lemma_root_is_root(self.index as int);
        }
        let a = cells.root_of(self.index);
        if let Some(e) = cells.poison_of(a) {
            return Err(e.duplicate());
        }
        if cells.known_at(a) {
            let due = vec![c];
            assert(due@ =~= seq![c]);
            return Ok(due);
        }
        cells.park(a, c);
        Ok(Vec::new())
    }

    /// Derives a cell of another store: once this cell is known, the work named by `token`
    /// computes a cell from the value, which is unified into the derived one. Returns the
    /// derived cell and the work due now. A poisoned cell gives a derived cell poisoned by
    /// the same error.
    pub fn then<T, R>(&self, cells: &mut Cells<T>, slots: &mut Cells<R>, token: u64) -> (r: (
        CRef,
        Vec<Constraint>,
    ))
        requires
            old(cells).wf(),
            old(slots).wf(),
            old(cells).valid(*self),
        ensures
            final(cells).wf(),
            final(slots).wf(),
            old(slots).extended(final(slots)),
            r.0.index == old(slots).len(),
            !final(slots).known(r.0.index as int),
            final(slots).pending(r.0.index as int) == Seq::<Constraint>::empty(),
            old(cells).poison(self.index as int) is Some ==> {
                &&& final(cells).same_view(old(cells))
                &&& final(slots).poison(r.0.index as int) is Some
                &&& final(slots).poison(r.0.index as int)->0@ == old(cells).poison(
                    self.index as int,
                )->0@
                &&& r.1@ == Seq::<Constraint>::empty()
            },
            old(cells).poison(self.index as int) is None ==> {
                &&& final(slots).poison(r.0.index as int) is None
                &&& old(cells).constrain_rel(
                    self.index as int,
                    Constraint::Derive { token, slot: r.0 },
                    final(cells),
                    Ok(r.1),
                )
            },
    {
        proof {
            cells.lemma_root_is_root(self.index as int);
        }
        let a = cells.root_of(self.index);
        if let Some(e) = cells.poison_of(a) {
            let slot = CRef::new_error(slots, e.duplicate());
            return (slot, Vec::new());
        }
        let slot = CRef::new_unknown(slots, "slot");
        let c = Constraint::Derive { token, slot };
        if cells.known_at(a) {
            let due = vec![c];
            assert(due@ =~= seq![c]);
            return (slot, due);
        }
        cells.park(a, c);
        (slot, Vec::new())
    }

    /// Unifies this cell with `other`. Returns the work that became due, in registration
    /// order.
    pub fn unify<T: Constrainable>(&self, other: &CRef, cells: &mut Cells<T>) -> (r: Result<
        Vec<Constraint>,
        CompileError,
    >)
        requires
            old(cells).wf(),
            old(cells).valid(*self),
            old(cells).valid(*other),
        ensures
            final(cells).wf(),
            old(cells).unify_rel(self.index as int, other.index as int, final(cells), r),
    {
        proof {
            cells.lemma_root_is_root(self.index as int);
            cells.lemma_root_is_root(other.index as int);
        }
        let ra = cells.find_root(self.index);
        let rb = cells.find_root(other.index);
        if ra == rb {
            return Ok(Vec::new());
        }
        let ghost mid = *cells;
        let r = cells.unify_roots(ra, rb);
        proof {
            mid.lemma_root_is_root(self.index as int);
            mid.lemma_root_is_root(other.index as int);
            Cells::lemma_unify_rel_transfer(*old(cells), mid, self.index as int, other.index as int, *cells, r);
        }
        r
    }

    /// Polls this cell for the unit of work `waker`: ready when the value is known, failed
    /// when poisoned; otherwise the work is parked on the cell, to be woken once.
    pub fn poll<T>(&self, cells: &mut Cells<T>, waker: u64) -> (r: Polled)
        requires
            old(cells).wf(),
            old(cells).valid(*self),
        ensures
            final(cells).wf(),
            old(cells).poll_rel(self.index as int, waker, final(cells), r),
    {
        proof {
            cells.lemma_root_is_root(self.index as int);
        }
        let a = cells.root_of(self.index);
        if let Some(e) = cells.poison_of(a) {
            return Polled::Failed(e.duplicate());
        }
        if cells.known_at(a) {
            return Polled::Ready;
        }
        cells.park(a, Constraint::Wake(waker));
        Polled::Pending
    }
}

} // verus!
