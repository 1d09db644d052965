use vstd::multiset::Multiset;
use vstd::prelude::*;
use vstd::seq_lib::lemma_seq_union_to_multiset_commutative;
use crate::error::{error_parts, CompileError};
use crate::inference::{CRef, Cells, Constraint, Polled};
use crate::types::Constrainable;

verus! {

/// Unifying a cell with itself changes nothing and makes no work due, whatever the
/// cell's state.
pub proof fn lemma_unify_self_is_noop<T: Constrainable>(
    cells: Cells<T>,
    a: CRef,
    post: Cells<T>,
    r: Result<Vec<Constraint>, CompileError>,
)
    requires
        cells.wf(),
        cells.valid(a),
        cells.unify_rel(a.index as int, a.index as int, &post, r),
    ensures
        post.same_view(&cells),
        r is Ok,
        r->Ok_0@ == Seq::<Constraint>::empty(),
{
}

/// `unify(a, b)` and `unify(b, a)` agree: both succeed or both fail, the same work
/// becomes due, and afterwards the cells fall into the same classes, with the same
/// known values, the same poison, and the same waiting work and tags up to order.
/// Where a side is poisoned, both fail with the same errors, aggregated where both are.
pub proof fn lemma_unify_symmetric<T: Constrainable>(
    cells: Cells<T>,
    a: CRef,
    b: CRef,
    p1: Cells<T>,
    r1: Result<Vec<Constraint>, CompileError>,
    p2: Cells<T>,
    r2: Result<Vec<Constraint>, CompileError>,
)
    requires
        cells.wf(),
        cells.valid(a),
        cells.valid(b),
        cells.unify_rel(a.index as int, b.index as int, &p1, r1),
        cells.unify_rel(b.index as int, a.index as int, &p2, r2),
    ensures
        r1 is Ok <==> r2 is Ok,
        r1 is Ok ==> r1->Ok_0@ == r2->Ok_0@,
        cells.root(a.index as int) != cells.root(b.index as int) && (cells.poison(a.index as int) is Some
            || cells.poison(b.index as int) is Some) ==> r1 is Err && r2 is Err && error_parts(
            r1->Err_0@,
        ).to_multiset() == error_parts(r2->Err_0@).to_multiset(),
        p1.len() == p2.len(),
        forall|i: int, j: int|
            0 <= i < p1.len() && 0 <= j < p1.len() ==> (#[trigger] p1.root(i) == #[trigger] p1.root(j)
                <==> p2.root(i) == p2.root(j)),
        forall|i: int|
            0 <= i < p1.len() ==> {
                &&& #[trigger] p1.known(i) == p2.known(i)
                &&& p1.known(i) ==> p1.value(i) == p2.value(i)
                &&& p1.poison(i) == p2.poison(i)
                &&& p1.pending(i).to_multiset() == p2.pending(i).to_multiset()
                &&& p1.tags(i).to_multiset() == p2.tags(i).to_multiset()
            },
{
    let x = a.index as int;
    let y = b.index as int;
    cells.lemma_root_is_root(x);
    cells.lemma_root_is_root(y);
    if cells.root(x) != cells.root(y) && cells.poison(x) is Some && cells.poison(y) is Some {
        lemma_seq_union_to_multiset_commutative(seq![cells.poison(x)->0@], seq![cells.poison(y)->0@]);
        assert(seq![cells.poison(x)->0@] + seq![cells.poison(y)->0@] =~= seq![cells.poison(x)->0@, cells.poison(y)->0@]);
        assert(seq![cells.poison(y)->0@] + seq![cells.poison(x)->0@] =~= seq![cells.poison(y)->0@, cells.poison(x)->0@]);
    }
    if cells.root(x) != cells.root(y) && cells.poison(x) is None && cells.poison(y) is None {
        if cells.known(x) && cells.known(y) {
            T::lemma_unifies_symmetric(&cells.value(x), &cells.value(y));
        } else if !cells.known(x) && !cells.known(y) {
            lemma_seq_union_to_multiset_commutative(cells.pending(x), cells.pending(y));
            lemma_seq_union_to_multiset_commutative(cells.tags(x), cells.tags(y));
        }
    }
    assert forall|i: int| 0 <= i < p1.len() implies {
        &&& #[trigger] p1.known(i) == p2.known(i)
        &&& p1.known(i) ==> p1.value(i) == p2.value(i)
        &&& p1.poison(i) == p2.poison(i)
        &&& p1.pending(i).to_multiset() == p2.pending(i).to_multiset()
        &&& p1.tags(i).to_multiset() == p2.tags(i).to_multiset()
    } by {
        lemma_unify_cell(cells, x, y, p1, r1, i);
        lemma_unify_cell(cells, y, x, p2, r2, i);
    }
    assert forall|i: int, j: int| 0 <= i < p1.len() && 0 <= j < p1.len() implies (#[trigger] p1.root(i)
        == #[trigger] p1.root(j) <==> p2.root(i) == p2.root(j)) by {
        lemma_unify_cell(cells, x, y, p1, r1, i);
        lemma_unify_cell(cells, y, x, p2, r2, i);
        lemma_unify_cell(cells, x, y, p1, r1, j);
        lemma_unify_cell(cells, y, x, p2, r2, j);
    }
}

/// What `unify(x, y)` does to one cell `i`.
proof fn lemma_unify_cell<T: Constrainable>(
    cells: Cells<T>,
    x: int,
    y: int,
    post: Cells<T>,
    r: Result<Vec<Constraint>, CompileError>,
    i: int,
)
    requires
        cells.wf(),
        0 <= x < cells.len(),
        0 <= y < cells.len(),
        0 <= i < cells.len(),
        cells.unify_rel(x, y, &post, r),
    ensures
        post.len() == cells.len(),
        cells.state(i) == cells.state(cells.root(i)),
        !(cells.unify_merges(x, y) && (cells.root(i) == cells.root(x) || cells.root(i) == cells.root(
            y,
        ))) ==> post.root(i) == cells.root(i) && post.state(i) == cells.state(i)
            && (cells.unify_merges(x, y) ==> post.root(i) != post.root(x)),
        cells.unify_merges(x, y) && (cells.root(i) == cells.root(x) || cells.root(i) == cells.root(
            y,
        )) ==> post.root(i) == post.root(x) && post.root(i) == post.root(y) && post.state(i)
            == cells.unify_merged_state(x, y),
        cells.unify_merges(x, y) ==> post.root(x) == post.root(y),
{
    cells.lemma_root_is_root(i);
    cells.lemma_root_is_root(x);
    cells.lemma_root_is_root(y);
    let ra = cells.root(x);
    let rb = cells.root(y);
    if !cells.unify_merges(x, y) {
        assert(post.same_view(&cells));
        assert(post.root(i) == cells.root(i) && post.state(i) == cells.state(i));
    } else {
        let st = cells.unify_merged_state(x, y);
        let keep = cells.unify_keep(x, y);
        let gone = if keep == ra { rb } else { ra };
        assert(cells.merged(&post, keep, gone, st));
        assert(post.root(i) == post.root(i) && post.state(i) == post.state(i));
        assert(post.root(x) == post.root(x) && post.root(y) == post.root(y));
        if cells.root(i) == ra {
            assert(cells.state(i) == cells.state(x));
        }
        if cells.root(i) == rb {
            assert(cells.state(i) == cells.state(y));
        }
    }
}

/// A known cell stays known with the same value through any unification, and a poisoned
/// cell stays poisoned by the same error. Two distinct known values unify only when
/// their payloads unify structurally.
pub proof fn lemma_unify_keeps_known<T: Constrainable>(
    cells: Cells<T>,
    a: CRef,
    b: CRef,
    post: Cells<T>,
    r: Result<Vec<Constraint>, CompileError>,
    c: CRef,
)
    requires
        cells.wf(),
        cells.valid(a),
        cells.valid(b),
        cells.valid(c),
        cells.unify_rel(a.index as int, b.index as int, &post, r),
    ensures
        cells.known(c.index as int) ==> post.known(c.index as int) && post.value(c.index as int)
            == cells.value(c.index as int),
        cells.poison(c.index as int) is Some ==> post.poison(c.index as int) == cells.poison(
            c.index as int,
        ),
        cells.known(a.index as int) && cells.known(b.index as int) && cells.root(a.index as int)
            != cells.root(b.index as int) ==> (r is Ok <==> cells.value(a.index as int).unifies_with(
            &cells.value(b.index as int),
        )),
{
    let i = c.index as int;
    let x = a.index as int;
    let y = b.index as int;
    lemma_unify_cell(cells, x, y, post, r, i);
    cells.lemma_root_is_root(x);
    cells.lemma_root_is_root(y);
    if cells.root(i) == cells.root(x) {
        assert(cells.state(i) == cells.state(x));
    }
    if cells.root(i) == cells.root(y) {
        assert(cells.state(i) == cells.state(y));
    }
}

/// Work registered on an unknown cell in the order `c1`, `c2`, `c3` becomes due in that
/// order, after what was waiting before, once the cell is unified with a known one.
pub proof fn lemma_constraints_run_in_order<T: Constrainable>(
    s0: Cells<T>,
    a: CRef,
    c1: Constraint,
    c2: Constraint,
    c3: Constraint,
    s1: Cells<T>,
    r1: Result<Vec<Constraint>, CompileError>,
    s2: Cells<T>,
    r2: Result<Vec<Constraint>, CompileError>,
    s3: Cells<T>,
    r3: Result<Vec<Constraint>, CompileError>,
    k: CRef,
    s4: Cells<T>,
    r4: Result<Vec<Constraint>, CompileError>,
)
    requires
        s0.wf(),
        s0.valid(a),
        s0.valid(k),
        !s0.known(a.index as int),
        s0.poison(a.index as int) is None,
        s0.constrain_rel(a.index as int, c1, &s1, r1),
        s1.constrain_rel(a.index as int, c2, &s2, r2),
        s2.constrain_rel(a.index as int, c3, &s3, r3),
        s3.known(k.index as int),
        s3.unify_rel(a.index as int, k.index as int, &s4, r4),
    ensures
        r1 is Ok && r1->Ok_0@ == Seq::<Constraint>::empty(),
        r2 is Ok && r2->Ok_0@ == Seq::<Constraint>::empty(),
        r3 is Ok && r3->Ok_0@ == Seq::<Constraint>::empty(),
        r4 is Ok,
        r4->Ok_0@ == s0.pending(a.index as int) + seq![c1, c2, c3],
{
    let i = a.index as int;
    assert(s1.root(i) == s1.root(i));
    assert(s2.root(i) == s2.root(i));
    assert(s3.root(i) == s3.root(i));
    assert(s3.pending(i) =~= s0.pending(i) + seq![c1, c2, c3]);
}

/// Step `k` of a chain: `cs[k]` is unified with `cs[k + 1]`, in either order.
pub open spec fn chain_step<T: Constrainable>(
    states: Seq<Cells<T>>,
    cs: Seq<CRef>,
    rs: Seq<Result<Vec<Constraint>, CompileError>>,
    k: int,
) -> bool {
    ||| states[k].unify_rel(cs[k].index as int, cs[k + 1].index as int, &states[k + 1], rs[k])
    ||| states[k].unify_rel(cs[k + 1].index as int, cs[k].index as int, &states[k + 1], rs[k])
}

/// The tags of the first `n` cells of `cs`, together.
pub open spec fn tags_of_first<T>(s: Cells<T>, cs: Seq<CRef>, n: nat) -> Multiset<String>
    decreases n,
{
    if n == 0 {
        Multiset::empty()
    } else {
        tags_of_first(s, cs, (n - 1) as nat).add(s.tags(cs[n - 1].index as int).to_multiset())
    }
}

/// Whether the cells are unknown, unpoisoned, and in distinct classes.
pub open spec fn fresh_cells<T>(s: Cells<T>, cs: Seq<CRef>) -> bool {
    &&& forall|m: int|
        0 <= m < cs.len() ==> s.valid(#[trigger] cs[m]) && !s.known(cs[m].index as int) && s.poison(
            cs[m].index as int,
        ) is None
    &&& forall|i: int, j: int|
        0 <= i < cs.len() && 0 <= j < cs.len() && i != j ==> s.root(#[trigger] cs[i].index as int)
            != s.root(#[trigger] cs[j].index as int)
}

/// Unifying fresh unknown cells pairwise in sequence (`cs[0]` with `cs[1]`, then `cs[1]`
/// with `cs[2]`, ..., each pair in either order) succeeds at every step, and leaves them
/// all with one common representative, which is unknown, unpoisoned, and carries the
/// tags of all of them.
pub proof fn lemma_chain_has_one_root<T: Constrainable>(
    states: Seq<Cells<T>>,
    cs: Seq<CRef>,
    rs: Seq<Result<Vec<Constraint>, CompileError>>,
)
    requires
        cs.len() >= 1,
        states.len() == cs.len(),
        rs.len() + 1 == cs.len(),
        forall|k: int| 0 <= k < states.len() ==> (#[trigger] states[k]).wf(),
        fresh_cells(states[0], cs),
        forall|k: int| 0 <= k < rs.len() ==> #[trigger] chain_step(states, cs, rs, k),
    ensures
        forall|k: int| 0 <= k < rs.len() ==> (#[trigger] rs[k]) is Ok,
        forall|i: int, j: int|
            0 <= i < cs.len() && 0 <= j < cs.len() ==> states.last().root(#[trigger] cs[i].index as int)
                == states.last().root(#[trigger] cs[j].index as int),
        !states.last().known(cs[0].index as int),
        states.last().poison(cs[0].index as int) is None,
        states.last().tags(cs[0].index as int).to_multiset() == tags_of_first(
            states[0],
            cs,
            cs.len() as nat,
        ),
{
    let last = cs.len() - 1;
    lemma_chain_prefix(states, cs, rs, last);
    assert forall|i: int, j: int| 0 <= i < cs.len() && 0 <= j < cs.len() implies states.last().root(
        #[trigger] cs[i].index as int,
    ) == states.last().root(#[trigger] cs[j].index as int) by {
        assert(states[last].root(cs[i].index as int) == states[last].root(cs[0].index as int));
        assert(states[last].root(cs[j].index as int) == states[last].root(cs[0].index as int));
    }
    assert forall|k: int| 0 <= k < rs.len() implies (#[trigger] rs[k]) is Ok by {
        lemma_chain_prefix(states, cs, rs, k + 1);
    }
}

proof fn lemma_chain_prefix<T: Constrainable>(
    states: Seq<Cells<T>>,
    cs: Seq<CRef>,
    rs: Seq<Result<Vec<Constraint>, CompileError>>,
    k: int,
)
    requires
        cs.len() >= 1,
        states.len() == cs.len(),
        rs.len() + 1 == cs.len(),
        forall|k: int| 0 <= k < states.len() ==> (#[trigger] states[k]).wf(),
        fresh_cells(states[0], cs),
        forall|k: int| 0 <= k < rs.len() ==> #[trigger] chain_step(states, cs, rs, k),
        0 <= k < cs.len(),
    ensures
        states[k].len() == states[0].len(),
        forall|m: int|
            0 <= m < cs.len() ==> !states[k].known(#[trigger] cs[m].index as int) && states[k].poison(
                cs[m].index as int,
            ) is None,
        forall|m: int|
            0 <= m <= k ==> states[k].root(#[trigger] cs[m].index as int) == states[k].root(
                cs[0].index as int,
            ),
        forall|m: int|
            k < m < cs.len() ==> states[k].root(#[trigger] cs[m].index as int) == states[0].root(
                cs[m].index as int,
            ) && states[k].state(cs[m].index as int) == states[0].state(cs[m].index as int)
                && states[k].root(cs[m].index as int) != states[k].root(cs[0].index as int),
        states[k].tags(cs[0].index as int).to_multiset() == tags_of_first(
            states[0],
            cs,
            (k + 1) as nat,
        ),
        k > 0 ==> rs[k - 1] is Ok,
    decreases k,
{
    let s0 = states[0];
    if k == 0 {
        assert(tags_of_first(s0, cs, 0) =~= Multiset::empty());
        assert(tags_of_first(s0, cs, 1) =~= s0.tags(cs[0].index as int).to_multiset());
        assert forall|m: int| 0 < m < cs.len() implies s0.root(#[trigger] cs[m].index as int)
            != s0.root(cs[0].index as int) by {
            assert(s0.root(cs[m].index as int) != s0.root(cs[0].index as int));
        }
    } else {
        lemma_chain_prefix(states, cs, rs, k - 1);
        let s = states[k - 1];
        let p = states[k];
        let x = cs[k - 1].index as int;
        let y = cs[k].index as int;
        let z = cs[0].index as int;
        assert(chain_step(states, cs, rs, k - 1));
        assert(states[(k - 1) + 1] == p);
        let (u, v) = if s.unify_rel(x, y, &p, rs[k - 1]) { (x, y) } else { (y, x) };
        assert(s.unify_rel(u, v, &p, rs[k - 1]));
        assert(s0.valid(cs[k - 1]) && s0.valid(cs[k]) && s0.valid(cs[0]));
        assert(!s.known(x) && s.poison(x) is None);
        assert(!s.known(y) && s.poison(y) is None);
        assert(s.root(x) == s.root(z));
        assert(s.root(y) != s.root(z));
        assert(s.unify_merges(u, v));
        lemma_unify_cell(s, u, v, p, rs[k - 1], z);
        lemma_unify_cell(s, u, v, p, rs[k - 1], x);
        lemma_unify_cell(s, u, v, p, rs[k - 1], y);
        s.lemma_root_is_root(x);
        s.lemma_root_is_root(y);
        s.lemma_root_is_root(z);
        assert forall|m: int| 0 <= m < cs.len() implies !p.known(#[trigger] cs[m].index as int)
            && p.poison(cs[m].index as int) is None by {
            assert(s0.valid(cs[m]));
            assert(!s.known(cs[m].index as int) && s.poison(cs[m].index as int) is None);
            lemma_unify_cell(s, u, v, p, rs[k - 1], cs[m].index as int);
        }
        assert forall|m: int| 0 <= m <= k implies p.root(#[trigger] cs[m].index as int) == p.root(
            cs[0].index as int,
        ) by {
            assert(s0.valid(cs[m]));
            lemma_unify_cell(s, u, v, p, rs[k - 1], cs[m].index as int);
            if m < k {
                assert(s.root(cs[m].index as int) == s.root(z));
            }
        }
        assert forall|m: int| k < m < cs.len() implies p.root(#[trigger] cs[m].index as int) == s0.root(
            cs[m].index as int,
        ) && p.state(cs[m].index as int) == s0.state(cs[m].index as int) && p.root(cs[m].index as int)
            != p.root(z) by {
            assert(s0.valid(cs[m]));
            let w = cs[m].index as int;
            assert(s.root(w) == s0.root(w) && s.state(w) == s0.state(w) && s.root(w) != s.root(z));
            assert(s0.root(w) != s0.root(y));
            lemma_unify_cell(s, u, v, p, rs[k - 1], w);
        }
        let tz = s.tags(z);
        let ty = s.tags(y);
        assert(s.tags(x) == tz);
        assert(ty == s0.tags(y));
        assert(p.tags(z) == s.tags(u) + s.tags(v));
        vstd::seq_lib::lemma_multiset_commutative(s.tags(u), s.tags(v));
        assert(tags_of_first(s0, cs, (k + 1) as nat) == tags_of_first(s0, cs, k as nat).add(
            s0.tags(y).to_multiset(),
        ));
        assert(p.tags(z).to_multiset() =~= tz.to_multiset().add(ty.to_multiset()));
    }
}

/// A poisoned cell never runs work registered on it: `constrain` returns its error and
/// changes nothing, and `poll` yields its error at once and parks nothing.
pub proof fn lemma_poison_is_forwarded<T>(
    cells: Cells<T>,
    a: CRef,
    c: Constraint,
    p1: Cells<T>,
    r1: Result<Vec<Constraint>, CompileError>,
    w: u64,
    p2: Cells<T>,
    r2: Polled,
)
    requires
        cells.wf(),
        cells.valid(a),
        cells.poison(a.index as int) is Some,
        cells.constrain_rel(a.index as int, c, &p1, r1),
        cells.poll_rel(a.index as int, w, &p2, r2),
    ensures
        r1 is Err,
        r1->Err_0@ == cells.poison(a.index as int)->0@,
        p1.same_view(&cells),
        r2 is Failed,
        r2->Failed_0@ == cells.poison(a.index as int)->0@,
        p2.same_view(&cells),
{
}


/// One operation of the engine on a store: a unification, a registration of work, a
/// poll, the creation of a cell, or a lookup that only compresses paths. Deriving a cell
/// with `then` is a registration of work on its source store and the creation of a cell
/// in the other store.
pub open spec fn one_step<T: Constrainable>(s: Cells<T>, post: Cells<T>) -> bool {
    ||| exists|a: int, b: int, r: Result<Vec<Constraint>, CompileError>|
        0 <= a < s.len() && 0 <= b < s.len() && #[trigger] s.unify_rel(a, b, &post, r)
    ||| exists|a: int, c: Constraint, r: Result<Vec<Constraint>, CompileError>|
        0 <= a < s.len() && #[trigger] s.constrain_rel(a, c, &post, r)
    ||| exists|a: int, w: u64, r: Polled| 0 <= a < s.len() && #[trigger] s.poll_rel(a, w, &post, r)
    ||| s.extended(&post)
    ||| post.same_view(&s)
}

/// One operation keeps every known cell known with its value, and every poisoned cell
/// poisoned by its error.
pub proof fn lemma_step_keeps_known<T: Constrainable>(s: Cells<T>, post: Cells<T>, i: int)
    requires
        s.wf(),
        0 <= i < s.len(),
        one_step(s, post),
    ensures
        i < post.len(),
        s.known(i) ==> post.known(i) && post.value(i) == s.value(i),
        s.poison(i) is Some ==> post.poison(i) == s.poison(i),
{
    s.lemma_root_is_root(i);
    if exists|a: int, b: int, r: Result<Vec<Constraint>, CompileError>|
        0 <= a < s.len() && 0 <= b < s.len() && #[trigger] s.unify_rel(a, b, &post, r) {
        let (a, b, r) = choose|a: int, b: int, r: Result<Vec<Constraint>, CompileError>|
            0 <= a < s.len() && 0 <= b < s.len() && #[trigger] s.unify_rel(a, b, &post, r);
        lemma_unify_cell(s, a, b, post, r, i);
        s.lemma_root_is_root(a);
        s.lemma_root_is_root(b);
        if s.root(i) == s.root(a) {
            assert(s.state(i) == s.state(a));
        }
        if s.root(i) == s.root(b) {
            assert(s.state(i) == s.state(b));
        }
    } else if exists|a: int, c: Constraint, r: Result<Vec<Constraint>, CompileError>|
        0 <= a < s.len() && #[trigger] s.constrain_rel(a, c, &post, r) {
        let (a, c, r) = choose|a: int, c: Constraint, r: Result<Vec<Constraint>, CompileError>|
            0 <= a < s.len() && #[trigger] s.constrain_rel(a, c, &post, r);
        s.lemma_root_is_root(a);
        if s.root(i) == s.root(a) {
            assert(s.state(i) == s.state(a));
        }
        assert(post.root(i) == post.root(i) && post.state(i) == post.state(i));
    } else if exists|a: int, w: u64, r: Polled| 0 <= a < s.len() && #[trigger] s.poll_rel(a, w, &post, r) {
        let (a, w, r) = choose|a: int, w: u64, r: Polled|
            0 <= a < s.len() && #[trigger] s.poll_rel(a, w, &post, r);
        s.lemma_root_is_root(a);
        if s.root(i) == s.root(a) {
            assert(s.state(i) == s.state(a));
        }
        assert(post.root(i) == post.root(i) && post.state(i) == post.state(i));
    } else {
        assert(post.root(i) == post.root(i) && post.state(i) == post.state(i));
    }
}

/// Over any sequence of operations, a cell observed known stays known with the same
/// value, and a cell observed poisoned stays poisoned by the same error.
pub proof fn lemma_known_stays_known<T: Constrainable>(states: Seq<Cells<T>>, i: int)
    requires
        states.len() >= 1,
        forall|k: int| 0 <= k < states.len() ==> (#[trigger] states[k]).wf(),
        forall|k: int| 0 <= k < states.len() - 1 ==> one_step(#[trigger] states[k], states[k + 1]),
        0 <= i < states[0].len(),
    ensures
        forall|k: int|
            0 <= k < states.len() ==> {
                &&& i < (#[trigger] states[k]).len()
                &&& states[0].known(i) ==> states[k].known(i) && states[k].value(i) == states[0].value(i)
                &&& states[0].poison(i) is Some ==> states[k].poison(i) == states[0].poison(i)
            },
    decreases states.len(),
{
    if states.len() > 1 {
        let prefix = states.drop_last();
        assert forall|k: int| 0 <= k < prefix.len() - 1 implies one_step(#[trigger] prefix[k], prefix[k + 1]) by {
            assert(one_step(states[k], states[k + 1]));
        }
        lemma_known_stays_known(prefix, i);
        let n = states.len() - 1;
        assert(prefix[n - 1] == states[n - 1]);
        assert(one_step(states[n - 1], states[(n - 1) + 1]));
        lemma_step_keeps_known(states[n - 1], states[n], i);
        assert forall|k: int| 0 <= k < states.len() implies {
            &&& i < (#[trigger] states[k]).len()
            &&& states[0].known(i) ==> states[k].known(i) && states[k].value(i) == states[0].value(i)
            &&& states[0].poison(i) is Some ==> states[k].poison(i) == states[0].poison(i)
        } by {
            if k < n {
                assert(prefix[k] == states[k]);
            }
        }
    }
}

} // verus!
