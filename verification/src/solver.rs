//! The CDCL search engine.
//!
//! The solver keeps a growable arena of clauses, a trail of assigned
//! literals with per-variable reason and decision level, a two-watched
//! literal index from literal codes to clause identifiers, and two activity
//! counters.  `solve` alternates unit propagation and branching; conflicts
//! are analyzed into first-UIP learned clauses, followed by a
//! non-chronological backjump.

use vstd::prelude::*;

use crate::activity::Activity;
use crate::types::{clause_sat, lit_value, Literal, Value, Var};

verus! {

/// Why a variable is assigned: not at all, by a branching decision, or
/// forced by the clause with the given identifier.
#[derive(Clone, Copy, PartialEq, Eq, Structural, Debug)]
pub enum Reason {
    Undet,
    Branch,
    Clause(usize),
}

impl Reason {
    /// Whether the reason is a forcing clause.
    pub fn is_clause(self) -> (r: bool)
        ensures
            r == (self matches Reason::Clause(_)),
    {
        match self {
            Reason::Clause(_) => true,
            _ => false,
        }
    }
}

/// Monotonic counters reported by the solver.
#[derive(Clone, Copy, PartialEq, Eq, Structural, Debug)]
pub struct Stats {
    /// Number of budget-triggered restarts.
    pub n_restart: u64,
    /// Number of conflicts found by propagation.
    pub n_conflict: u64,
    /// Number of clause visits made by the propagator.
    pub n_propagation: u64,
}

/// The number of entries of `tb` that are at most `i`: the decision level of
/// the trail position `i`, since `tb[k]` is the trail index at which level
/// `k + 1` began.
pub open spec fn count_le(tb: Seq<usize>, i: int) -> int
    decreases tb.len(),
{
    if tb.len() == 0 {
        0
    } else {
        count_le(tb.drop_last(), i) + if tb.last() <= i {
            1int
        } else {
            0int
        }
    }
}

/// `count_le` never exceeds the number of boundaries.
pub proof fn lemma_count_le_bound(tb: Seq<usize>, i: int)
    ensures
        0 <= count_le(tb, i) <= tb.len(),
    decreases tb.len(),
{
    if tb.len() > 0 {
        lemma_count_le_bound(tb.drop_last(), i);
    }
}

/// When every boundary is at most `i`, the level of position `i` is the full
/// boundary count.
pub proof fn lemma_count_le_all(tb: Seq<usize>, i: int)
    requires
        forall|k: int| 0 <= k < tb.len() ==> #[trigger] tb[k] <= i,
    ensures
        count_le(tb, i) == tb.len(),
    decreases tb.len(),
{
    if tb.len() > 0 {
        lemma_count_le_all(tb.drop_last(), i);
    }
}

/// Appending a boundary adds one to the count exactly for the positions the
/// new boundary covers.
pub proof fn lemma_count_le_push(tb: Seq<usize>, b: usize, i: int)
    ensures
        count_le(tb.push(b), i) == count_le(tb, i) + if b <= i {
            1int
        } else {
            0int
        },
{
    assert(tb.push(b).drop_last() =~= tb);
    assert(tb.push(b).last() == b);
}

/// In a sorted boundary stack, positions at or past the last boundary sit at
/// the top decision level.
pub proof fn lemma_count_le_top(tb: Seq<usize>, i: int)
    requires
        tb.len() > 0,
        forall|k1: int, k2: int| 0 <= k1 <= k2 < tb.len() ==> #[trigger] tb[k1] <= #[trigger] tb[k2],
        tb.last() <= i,
    ensures
        count_le(tb, i) == tb.len(),
{
    assert(forall|k: int| 0 <= k < tb.len() ==> #[trigger] tb[k] <= i);
    lemma_count_le_all(tb, i);
}

/// The watcher-list index in which a clause watching literal `l` is
/// registered: the list of the opposite literal, visited when that opposite
/// literal becomes true.
pub open spec fn watch_code(l: Literal) -> int {
    l.spec_negate().0 as int
}

/// The decision level of an unassigned variable: an explicit marker, the
/// unsigned stand-in for the conventional -1.  Real levels are bounded by
/// the trail length and can never collide with it.
pub const LEVEL_NONE: usize = usize::MAX;

/// Two clauses hold the same literals: equal length and the same members.
/// For clauses of distinct literals this says one is a permutation of the
/// other.
pub open spec fn same_lits(a: Seq<Literal>, b: Seq<Literal>) -> bool {
    &&& a.len() == b.len()
    &&& forall|x: Literal| a.contains(x) <==> b.contains(x)
}

/// Swapping two positions of a clause keeps its length, its members and the
/// distinctness of its literals.
pub proof fn lemma_swap_lits(s: Seq<Literal>, a: int, b: int)
    requires
        0 <= a < s.len(),
        0 <= b < s.len(),
    ensures
        same_lits(s.update(a, s[b]).update(b, s[a]), s),
        (forall|i: int, j: int| 0 <= i < j < s.len() ==> s[i] != s[j]) ==> (forall|i: int, j: int|
            0 <= i < j < s.len() ==> s.update(a, s[b]).update(b, s[a])[i] != s.update(
                a,
                s[b],
            ).update(b, s[a])[j]),
{
    let t = s.update(a, s[b]).update(b, s[a]);
    assert forall|x: Literal| t.contains(x) implies s.contains(x) by {
        let k = choose|k: int| 0 <= k < t.len() && t[k] == x;
        if k == b {
            assert(s[a] == x);
        } else if k == a {
            assert(s[b] == x);
        } else {
            assert(s[k] == x);
        }
    };
    assert forall|x: Literal| s.contains(x) implies t.contains(x) by {
        let k = choose|k: int| 0 <= k < s.len() && s[k] == x;
        if k == a {
            assert(t[b] == x);
        } else if k == b {
            assert(t[a] == x);
        } else {
            assert(t[k] == x);
        }
    };
    if forall|i: int, j: int| 0 <= i < j < s.len() ==> s[i] != s[j] {
        assert forall|i: int, j: int| 0 <= i < j < s.len() implies t[i] != t[j] by {
            if a != b {
                if i == a && j == b {
                } else if i == b && j == a {
                } else if i == a || i == b || j == a || j == b {
                }
            }
        };
    }
}

/// Clause satisfaction depends only on the members of the clause.
pub proof fn lemma_same_lits_sat(asg: Seq<Value>, a: Seq<Literal>, b: Seq<Literal>)
    requires
        same_lits(a, b),
    ensures
        clause_sat(asg, a) == clause_sat(asg, b),
{
    if clause_sat(asg, a) {
        let j = choose|j: int| 0 <= j < a.len() && lit_value(asg, a[j]) == Value::True;
        assert(b.contains(a[j]));
        let k = choose|k: int| 0 <= k < b.len() && b[k] == a[j];
        assert(lit_value(asg, b[k]) == Value::True);
    }
    if clause_sat(asg, b) {
        let j = choose|j: int| 0 <= j < b.len() && lit_value(asg, b[j]) == Value::True;
        assert(a.contains(b[j]));
        let k = choose|k: int| 0 <= k < a.len() && a[k] == b[j];
        assert(lit_value(asg, a[k]) == Value::True);
    }
}

/// Appending to a sequence keeps every member.
pub proof fn lemma_push_contains(s: Seq<usize>, x: usize, y: usize)
    ensures
        s.contains(x) ==> s.push(y).contains(x),
{
    if s.contains(x) {
        let k = choose|k: int| 0 <= k < s.len() && s[k] == x;
        assert(s.push(y)[k] == x);
    }
}

/// A trail of pairwise distinct variables, each below `nv`, has at most
/// `nv` entries.
pub proof fn lemma_trail_len_bound(q: Seq<Literal>, nv: int)
    requires
        nv >= 0,
        forall|i: int| 0 <= i < q.len() ==> (#[trigger] q[i]).ok(nv),
        forall|i: int, j: int|
            0 <= i < j < q.len() ==> (#[trigger] q[i]).var_idx() != (#[trigger] q[j]).var_idx(),
    ensures
        q.len() <= nv,
{
    broadcast use vstd::set::group_set_axioms;

    let vars = q.map_values(|l: Literal| l.var_idx());
    assert(vars.len() == q.len());
    assert forall|i: int, j: int| 0 <= i < j < vars.len() implies vars[i] != vars[j] by {
        assert(vars[i] == q[i].var_idx());
        assert(vars[j] == q[j].var_idx());
    };
    assert(vars.no_duplicates());
    vars.unique_seq_to_set();
    assert forall|x: int| vars.to_set().contains(x) implies vstd::set_lib::set_int_range(
        0,
        nv,
    ).contains(x) by {
        assert(vars.contains(x));
        let i = choose|i: int| 0 <= i < vars.len() && vars[i] == x;
        assert(q[i].ok(nv));
        assert(0 <= q[i].var_idx() < nv);
    };
    vstd::set_lib::lemma_int_range(0, nv);
    vstd::set_lib::lemma_len_subset(vars.to_set(), vstd::set_lib::set_int_range(0, nv));
}

/// A forced trail entry stays forced when the trail only grows, clause
/// contents are only permuted, and no assigned variable changes its value
/// or its reason.
pub proof fn lemma_forced_preserved(pre: Solver, post: Solver, i: int)
    requires
        0 <= i < pre.queue@.len(),
        pre.forced_entry(i),
        pre.assignment@[pre.queue@[i].var_idx()] != Value::Undet,
        pre.queue@.len() <= post.queue@.len(),
        post.queue@[i] == pre.queue@[i],
        post.nc() == pre.nc(),
        forall|c: int|
            0 <= c < pre.nc() ==> same_lits((#[trigger] post.clauses@[c])@, pre.clauses@[c]@),
        forall|v: int|
            0 <= v < pre.assignment@.len() && #[trigger] pre.assignment@[v] != Value::Undet
                ==> post.assignment@[v] == pre.assignment@[v] && post.reason@[v]
                == pre.reason@[v],
        pre.queue@[i].var_idx() < pre.assignment@.len(),
        forall|c: int, j: int|
            0 <= c < pre.nc() && 0 <= j < pre.clauses@[c]@.len() ==> (
            #[trigger] pre.clauses@[c]@[j]).ok(pre.assignment@.len() as int),
    ensures
        post.forced_entry(i),
{
    let l = pre.queue@[i];
    let c = choose|c: int|
        {
            &&& 0 <= c < pre.nc()
            &&& pre.reason@[l.var_idx()] == Reason::Clause(c as usize)
            &&& (#[trigger] pre.clauses@[c])@.contains(l)
            &&& forall|x: Literal|
                pre.clauses@[c]@.contains(x) && x != l ==> lit_value(pre.assignment@, x)
                    == Value::False
        };
    assert(post.reason@[l.var_idx()] == Reason::Clause(c as usize));
    assert(post.clauses@[c]@.contains(l));
    assert forall|x: Literal|
        post.clauses@[c]@.contains(x) && x != l implies lit_value(post.assignment@, x)
        == Value::False by {
        assert(pre.clauses@[c]@.contains(x));
        assert(lit_value(pre.assignment@, x) == Value::False);
        let k = choose|k: int| 0 <= k < pre.clauses@[c]@.len() && pre.clauses@[c]@[k] == x;
        assert(x.ok(pre.assignment@.len() as int));
        assert(pre.assignment@[x.var_idx()] != Value::Undet);
    };
}

/// `forced_entry` reads only the trail, the reasons, the clauses and the
/// assignment: states agreeing there agree on it.
pub proof fn lemma_forced_congruent(a: Solver, b: Solver, i: int)
    requires
        a.queue == b.queue,
        a.reason == b.reason,
        a.clauses == b.clauses,
        a.assignment == b.assignment,
        a.forced_entry(i),
        0 <= i < a.queue@.len(),
    ensures
        b.forced_entry(i),
{
    let l = a.queue@[i];
    let c = choose|c: int|
        {
            &&& 0 <= c < a.nc()
            &&& a.reason@[l.var_idx()] == Reason::Clause(c as usize)
            &&& (#[trigger] a.clauses@[c])@.contains(l)
            &&& forall|x: Literal|
                a.clauses@[c]@.contains(x) && x != l ==> lit_value(a.assignment@, x)
                    == Value::False
        };
    assert(0 <= c < b.nc() && b.reason@[l.var_idx()] == Reason::Clause(c as usize) && (
    #[trigger] b.clauses@[c])@.contains(l) && (forall|x: Literal|
        b.clauses@[c]@.contains(x) && x != l ==> lit_value(b.assignment@, x) == Value::False));
}

/// One clause visit keeps every forced trail entry forced, and a unit
/// enqueue adds one more: the visited clause forces its first watch.
pub proof fn lemma_forced_step(o: Solver, pre: Solver, post: Solver, cid: usize)
    requires
        o.queue@.len() <= pre.queue@.len() <= post.queue@.len(),
        forall|i2: int| o.queue@.len() <= i2 < pre.queue@.len() ==> pre.forced_entry(i2),
        forall|i2: int|
            0 <= i2 < o.queue@.len() && o.forced_entry(i2) ==> pre.forced_entry(i2),
        forall|i: int|
            0 <= i < pre.queue@.len() ==> lit_value(pre.assignment@, #[trigger] pre.queue@[i])
                == Value::True,
        forall|i: int|
            0 <= i < pre.queue@.len() ==> (#[trigger] pre.queue@[i]).ok(
                pre.assignment@.len() as int,
            ),
        forall|c: int, j: int|
            0 <= c < pre.nc() && 0 <= j < pre.clauses@[c]@.len() ==> (
            #[trigger] pre.clauses@[c]@[j]).ok(pre.assignment@.len() as int),
        forall|i: int|
            0 <= i < pre.queue@.len() ==> post.queue@[i] == pre.queue@[i],
        post.nc() == pre.nc(),
        forall|c: int|
            0 <= c < pre.nc() ==> same_lits((#[trigger] post.clauses@[c])@, pre.clauses@[c]@),
        forall|v: int|
            0 <= v < pre.assignment@.len() && #[trigger] pre.assignment@[v] != Value::Undet
                ==> post.assignment@[v] == pre.assignment@[v] && post.reason@[v]
                == pre.reason@[v],
        cid < pre.nc(),
        forall|i1: int, j1: int|
            0 <= i1 < j1 < post.clauses@[cid as int]@.len() ==> post.clauses@[cid as int]@[i1]
                != post.clauses@[cid as int]@[j1],
        post.queue@ == pre.queue@ || ({
            let fcl = post.clauses@[cid as int]@;
            &&& fcl.len() >= 1
            &&& post.queue@ == pre.queue@.push(fcl[0])
            &&& post.reason@[fcl[0].var_idx()] == Reason::Clause(cid)
            &&& forall|j: int|
                1 <= j < fcl.len() ==> lit_value(post.assignment@, #[trigger] fcl[j])
                    == Value::False
        }),
    ensures
        forall|i2: int| o.queue@.len() <= i2 < post.queue@.len() ==> post.forced_entry(i2),
        forall|i2: int|
            0 <= i2 < o.queue@.len() && o.forced_entry(i2) ==> post.forced_entry(i2),
{
    assert forall|i2: int|
        0 <= i2 < pre.queue@.len() && pre.forced_entry(i2) implies post.forced_entry(i2) by {
        assert(pre.assignment@[pre.queue@[i2].var_idx()] != Value::Undet) by {
            assert(lit_value(pre.assignment@, pre.queue@[i2]) == Value::True);
        };
        lemma_forced_preserved(pre, post, i2);
    };
    if post.queue@ != pre.queue@ {
        let fcl = post.clauses@[cid as int]@;
        let i2 = pre.queue@.len() as int;
        assert(post.queue@[i2] == fcl[0]);
        assert forall|x: Literal|
            fcl.contains(x) && x != fcl[0] implies lit_value(post.assignment@, x)
            == Value::False by {
            let kx = choose|kx: int| 0 <= kx < fcl.len() && fcl[kx] == x;
            assert(kx != 0);
        };
        assert(post.forced_entry(i2)) by {
            let ci = cid as int;
            assert(0 <= ci && ci < post.nc() && post.reason@[post.queue@[i2].var_idx()]
                == Reason::Clause(cid) && (#[trigger] post.clauses@[ci])@.contains(post.queue@[i2])
                && (forall|x: Literal|
                post.clauses@[ci]@.contains(x) && x != post.queue@[i2] ==> lit_value(
                    post.assignment@,
                    x,
                ) == Value::False));
        };
    }
}

/// How a visit of a watched clause ended: the watch stays on the drained
/// literal, the watch moved to the list with the returned index, the entry
/// was stale (the clause no longer watches the drained literal), or the
/// clause is falsified outright.
pub enum Visit {
    Kept,
    Moved(usize),
    Stale,
    Conflict,
}

/// The CDCL solver.
pub struct Solver {
    /// Current value of each variable.
    pub assignment: Vec<Value>,
    /// Arena of clauses; identifiers are indices and stay valid for the
    /// solver's lifetime.
    pub clauses: Vec<Vec<Literal>>,
    /// The trail: assigned literals in assignment order.
    pub queue: Vec<Literal>,
    /// Why each variable is assigned.
    pub reason: Vec<Reason>,
    /// For each literal code, the identifiers of the clauses watching the
    /// negation of that literal.
    pub watcher_clauses: Vec<Vec<usize>>,
    /// Start of the not-yet-propagated trail suffix.
    pub queue_top: usize,
    /// Branching activity, one entry per variable.
    pub var_activity: Activity,
    /// Deletion activity, one entry per clause.
    pub cla_activity: Activity,
    /// Trail indices at which each decision level began.
    pub trail_boundary: Vec<usize>,
    /// Decision level at which each variable was assigned; `LEVEL_NONE`
    /// while the variable is unassigned.
    pub level: Vec<usize>,
    /// Tombstone flag per clause.
    pub cla_erased: Vec<bool>,
    /// Whether the clause was learned during search (input clauses are never
    /// erased).
    pub cla_learnt: Vec<bool>,
    /// Identifiers of the live learned clauses.
    pub learnt: Vec<usize>,
    /// Monotonic statistics.
    pub n_restart: u64,
    /// Number of conflicts.
    pub n_conflict: u64,
    /// Number of clause visits during propagation.
    pub n_propagation: u64,
}

impl Solver {
    /// Number of variables.
    pub open spec fn nv(self) -> int {
        self.assignment@.len() as int
    }

    /// Number of clauses in the arena.
    pub open spec fn nc(self) -> int {
        self.clauses@.len() as int
    }

    /// Current decision level.
    pub open spec fn dl(self) -> int {
        self.trail_boundary@.len() as int
    }

    /// The parallel per-variable and per-clause stores have matching sizes,
    /// the activity counters are in bounds, and the boundary stack is a
    /// sorted stack of trail indices.
    pub open spec fn wf_sizes(self) -> bool {
        &&& self.reason@.len() == self.nv()
        &&& self.level@.len() == self.nv()
        &&& self.var_activity.scores@.len() == self.nv()
        &&& self.var_activity.wf()
        &&& self.watcher_clauses@.len() == 2 * self.nv()
        &&& self.cla_erased@.len() == self.nc()
        &&& self.cla_learnt@.len() == self.nc()
        &&& self.cla_activity.scores@.len() == self.nc()
        &&& self.cla_activity.wf()
        &&& self.nv() < usize::MAX as int / 2
        &&& forall|k1: int, k2: int|
            0 <= k1 <= k2 < self.trail_boundary@.len() ==> #[trigger] self.trail_boundary@[k1]
                <= #[trigger] self.trail_boundary@[k2]
        &&& forall|k: int|
            0 <= k < self.trail_boundary@.len() ==> #[trigger] self.trail_boundary@[k]
                <= self.queue@.len()
    }

    /// Trail coherence: each trail entry is a valid literal that is true
    /// under the assignment and whose variable carries the decision level of
    /// its trail position; trail variables are distinct; a variable is
    /// assigned exactly when it has a reason, and exactly when it sits on
    /// the trail; clause reasons are valid clause identifiers.
    pub open spec fn wf_trail(self) -> bool {
        &&& forall|i: int|
            0 <= i < self.queue@.len() ==> (#[trigger] self.queue@[i]).ok(self.nv())
        &&& forall|i: int|
            0 <= i < self.queue@.len() ==> lit_value(self.assignment@, #[trigger] self.queue@[i])
                == Value::True
        &&& forall|i: int|
            0 <= i < self.queue@.len() ==> self.level@[(#[trigger] self.queue@[i]).var_idx()]
                == count_le(self.trail_boundary@, i)
        &&& forall|i: int, j: int|
            0 <= i < j < self.queue@.len() ==> (#[trigger] self.queue@[i]).var_idx() != (
            #[trigger] self.queue@[j]).var_idx()
        &&& forall|v: int|
            0 <= v < self.nv() ==> ((#[trigger] self.assignment@[v] == Value::Undet)
                <==> self.reason@[v] == Reason::Undet)
        &&& forall|v: int|
            0 <= v < self.nv() && #[trigger] self.assignment@[v] == Value::Undet
                ==> self.level@[v] == LEVEL_NONE
        &&& forall|v: int|
            0 <= v < self.nv() && #[trigger] self.assignment@[v] != Value::Undet ==> exists|i: int|
                0 <= i < self.queue@.len() && (#[trigger] self.queue@[i]).var_idx() == v
        &&& forall|v: int|
            0 <= v < self.nv() ==> ((#[trigger] self.reason@[v]) matches Reason::Clause(c)
                ==> c < self.nc())
    }

    /// Every stored clause has at least two distinct, valid literals: unit
    /// and empty clauses never enter the arena.
    pub open spec fn wf_clauses(self) -> bool {
        &&& forall|c: int| 0 <= c < self.nc() ==> (#[trigger] self.clauses@[c])@.len() >= 2
        &&& forall|c: int, i: int|
            0 <= c < self.nc() && 0 <= i < self.clauses@[c]@.len() ==> (
            #[trigger] self.clauses@[c]@[i]).ok(self.nv())
        &&& forall|c: int, i: int, j: int|
            0 <= c < self.nc() && 0 <= i < j < self.clauses@[c]@.len() ==> self.clauses@[c]@[i]
                != self.clauses@[c]@[j]
    }

    /// Validity half of the watcher invariant: every entry of a watcher
    /// list is a valid clause identifier, and a live entry refers to a
    /// clause of length at least two.  Entries whose clause has stopped
    /// watching the list's literal may linger; the propagator drops them
    /// lazily.
    pub open spec fn watchers_sound(self) -> bool {
        forall|w: int, k: int|
            0 <= w < self.watcher_clauses@.len() && 0 <= k < self.watcher_clauses@[w]@.len()
                ==> {
                let id = (#[trigger] self.watcher_clauses@[w]@[k]) as int;
                &&& id < self.nc()
                &&& (!self.cla_erased@[id] ==> self.clauses@[id]@.len() >= 2)
            }
    }

    /// Completeness half of the watcher invariant: every live clause of
    /// length at least two is registered in the watcher lists of the
    /// negations of its first two literals.
    pub open spec fn watchers_complete(self) -> bool {
        forall|c: int|
            0 <= c < self.nc() && !self.cla_erased@[c] && (#[trigger] self.clauses@[c])@.len() >= 2
                ==> self.watcher_clauses@[watch_code(self.clauses@[c]@[0])]@.contains(c as usize)
                    && self.watcher_clauses@[watch_code(self.clauses@[c]@[1])]@.contains(c as usize)
    }

    /// The learned-clause index lists only live learned clauses, and input
    /// clauses are never erased.
    pub open spec fn wf_learnt(self) -> bool {
        &&& forall|k: int|
            0 <= k < self.learnt@.len() ==> {
                let id = (#[trigger] self.learnt@[k]) as int;
                &&& id < self.nc()
                &&& self.cla_learnt@[id]
                &&& !self.cla_erased@[id]
            }
        &&& forall|c: int| 0 <= c < self.nc() && !(#[trigger] self.cla_learnt@[c]) ==> !self.cla_erased@[c]
    }

    /// Full well-formedness, established by `new` and preserved by every
    /// operation.
    pub open spec fn wf(self) -> bool {
        &&& self.wf_sizes()
        &&& self.wf_trail()
        &&& self.wf_clauses()
        &&& self.watchers_sound()
        &&& self.watchers_complete()
        &&& self.wf_learnt()
    }

    /// The clause arena, the flags and the per-clause activity entries of
    /// `other` extend those of `self` with the content of the shared prefix
    /// permuted clause by clause: what `solve` and its helpers do to the
    /// clause database.
    pub open spec fn clauses_extended(self, other: Solver) -> bool {
        &&& other.nc() >= self.nc()
        &&& forall|c: int|
            0 <= c < self.nc() ==> (#[trigger] other.clauses@[c])@.to_multiset()
                == self.clauses@[c]@.to_multiset()
        &&& forall|c: int| 0 <= c < self.nc() ==> other.cla_learnt@[c] == self.cla_learnt@[c]
    }

    /// A fresh solver with no variables and no clauses.
    pub fn new() -> (r: Solver)
        ensures
            r.wf(),
            r.nv() == 0,
            r.nc() == 0,
            r.dl() == 0,
            r.queue@.len() == 0,
            r.queue_top == 0,
            r.n_restart == 0,
            r.n_conflict == 0,
            r.n_propagation == 0,
            r.var_activity.num == 20 && r.var_activity.den == 19,
            r.cla_activity.num == 1000 && r.cla_activity.den == 999,
            r.var_activity.inc == 1024 && r.cla_activity.inc == 1024,
    {
        Solver {
            assignment: Vec::new(),
            clauses: Vec::new(),
            queue: Vec::new(),
            reason: Vec::new(),
            watcher_clauses: Vec::new(),
            queue_top: 0,
            var_activity: Activity::new(20, 19),
            cla_activity: Activity::new(1000, 999),
            trail_boundary: Vec::new(),
            level: Vec::new(),
            cla_erased: Vec::new(),
            cla_learnt: Vec::new(),
            learnt: Vec::new(),
            n_restart: 0,
            n_conflict: 0,
            n_propagation: 0,
        }
    }

    /// Allocates a fresh unassigned variable, growing every per-variable
    /// store by one entry and the watcher index by two lists.
    pub fn new_var(&mut self) -> (r: Var)
        requires
            old(self).wf(),
            old(self).nv() + 1 < usize::MAX as int / 2,
        ensures
            final(self).wf(),
            r.0 == old(self).nv(),
            final(self).nv() == old(self).nv() + 1,
            final(self).assignment@ == old(self).assignment@.push(Value::Undet),
            final(self).reason@ == old(self).reason@.push(Reason::Undet),
            final(self).level@ == old(self).level@.push(LEVEL_NONE),
            final(self).var_activity.scores@ == old(self).var_activity.scores@.push(0u64),
            final(self).watcher_clauses@.len() == old(self).watcher_clauses@.len() + 2,
            final(self).watcher_clauses@[2 * old(self).nv()]@.len() == 0,
            final(self).watcher_clauses@[2 * old(self).nv() + 1]@.len() == 0,
            forall|w: int|
                0 <= w < old(self).watcher_clauses@.len() ==> final(self).watcher_clauses@[w]
                    == old(self).watcher_clauses@[w],
            final(self).clauses@ == old(self).clauses@,
            final(self).queue@ == old(self).queue@,
            final(self).trail_boundary@ == old(self).trail_boundary@,
            final(self).queue_top == old(self).queue_top,
            final(self).cla_erased@ == old(self).cla_erased@,
            final(self).cla_learnt@ == old(self).cla_learnt@,
            final(self).learnt@ == old(self).learnt@,
    {
        let id = self.assignment.len();
        self.assignment.push(Value::Undet);
        self.reason.push(Reason::Undet);
        // one watcher list for each of the positive and negative literals
        self.watcher_clauses.push(Vec::new());
        self.watcher_clauses.push(Vec::new());
        self.var_activity.add_entry();
        self.level.push(LEVEL_NONE);
        assert(final(self).wf_trail()) by {
            assert(forall|i: int|
                0 <= i < self.queue@.len() ==> lit_value(self.assignment@, #[trigger] self.queue@[i])
                    == lit_value(old(self).assignment@, self.queue@[i]));
        };
        Var(id)
    }

    /// Number of allocated variables.
    pub fn num_var(&self) -> (r: usize)
        ensures
            r == self.nv(),
    {
        self.assignment.len()
    }

    /// Current value of variable `v`.
    pub fn get_assignment(&self, v: Var) -> (r: Value)
        requires
            v.0 < self.nv(),
        ensures
            r == self.assignment@[v.0 as int],
    {
        self.assignment[v.0]
    }

    /// Current value of literal `lit`: the value of its variable, negated
    /// for a negative literal.
    pub fn get_assignment_lit(&self, lit: Literal) -> (r: Value)
        requires
            lit.ok(self.nv()),
        ensures
            r == lit_value(self.assignment@, lit),
    {
        if lit.is_negated() {
            self.get_assignment(lit.var()).negate()
        } else {
            self.get_assignment(lit.var())
        }
    }

    /// A snapshot of the per-variable values.
    pub fn assignment(&self) -> (r: Vec<Value>)
        ensures
            r@ == self.assignment@,
    {
        let n = self.assignment.len();
        let mut out: Vec<Value> = Vec::new();
        let mut i: usize = 0;
        while i < n
            invariant
                n == self.assignment@.len(),
                i <= n,
                out@ == self.assignment@.take(i as int),
            decreases n - i,
        {
            let v = self.assignment[i];
            out.push(v);
            assert(out@ =~= self.assignment@.take(i + 1));
            i += 1;
        }
        assert(out@ =~= self.assignment@);
        out
    }

    /// The solver's monotonic counters.
    pub fn stats(&self) -> (r: Stats)
        ensures
            r.n_restart == self.n_restart,
            r.n_conflict == self.n_conflict,
            r.n_propagation == self.n_propagation,
    {
        Stats {
            n_restart: self.n_restart,
            n_conflict: self.n_conflict,
            n_propagation: self.n_propagation,
        }
    }

    /// Forgets the assignment of `var`: value and reason return to `Undet`.
    fn clear(&mut self, var: Var)
        requires
            var.0 < old(self).nv(),
            old(self).reason@.len() == old(self).nv(),
            old(self).level@.len() == old(self).nv(),
        ensures
            final(self).assignment@ == old(self).assignment@.update(var.0 as int, Value::Undet),
            final(self).reason@ == old(self).reason@.update(var.0 as int, Reason::Undet),
            final(self).level@ == old(self).level@.update(var.0 as int, LEVEL_NONE),
            final(self).clauses == old(self).clauses,
            final(self).queue == old(self).queue,
            final(self).watcher_clauses == old(self).watcher_clauses,
            final(self).queue_top == old(self).queue_top,
            final(self).var_activity == old(self).var_activity,
            final(self).cla_activity == old(self).cla_activity,
            final(self).trail_boundary == old(self).trail_boundary,
            final(self).cla_erased == old(self).cla_erased,
            final(self).cla_learnt == old(self).cla_learnt,
            final(self).learnt == old(self).learnt,
            final(self).n_restart == old(self).n_restart,
            final(self).n_conflict == old(self).n_conflict,
            final(self).n_propagation == old(self).n_propagation,
    {
        self.reason.set(var.0, Reason::Undet);
        self.assignment.set(var.0, Value::Undet);
        self.level.set(var.0, LEVEL_NONE);
    }

    /// Enqueues literal `lit` with the given reason.  Returns `true` when
    /// the literal already holds or was newly assigned at the current
    /// decision level, `false` when it is already falsified.
    fn decide_checked(&mut self, lit: Literal, reason: Reason) -> (b: bool)
        requires
            old(self).wf_sizes(),
            old(self).wf_trail(),
            lit.ok(old(self).nv()),
            reason != Reason::Undet,
            reason matches Reason::Clause(c) ==> c < old(self).nc(),
        ensures
            final(self).wf_sizes(),
            final(self).wf_trail(),
            final(self).nv() == old(self).nv(),
            final(self).clauses == old(self).clauses,
            final(self).watcher_clauses == old(self).watcher_clauses,
            final(self).cla_erased == old(self).cla_erased,
            final(self).cla_learnt == old(self).cla_learnt,
            final(self).learnt == old(self).learnt,
            final(self).trail_boundary == old(self).trail_boundary,
            final(self).queue_top == old(self).queue_top,
            final(self).var_activity == old(self).var_activity,
            final(self).cla_activity == old(self).cla_activity,
            final(self).n_restart == old(self).n_restart,
            final(self).n_conflict == old(self).n_conflict,
            final(self).n_propagation == old(self).n_propagation,
            lit_value(old(self).assignment@, lit) == Value::True ==> b && *final(self) == *old(self),
            lit_value(old(self).assignment@, lit) == Value::False ==> !b && *final(self) == *old(
                self,
            ),
            lit_value(old(self).assignment@, lit) == Value::Undet ==> {
                &&& b
                &&& final(self).queue@ == old(self).queue@.push(lit)
                &&& final(self).assignment@ == old(self).assignment@.update(
                    lit.var_idx(),
                    if lit.neg() {
                        Value::False
                    } else {
                        Value::True
                    },
                )
                &&& final(self).reason@ == old(self).reason@.update(lit.var_idx(), reason)
                &&& final(self).level@ == old(self).level@.update(
                    lit.var_idx(),
                    old(self).trail_boundary@.len() as usize,
                )
            },
            b ==> lit_value(final(self).assignment@, lit) == Value::True,
            !b ==> *final(self) == *old(self),
            forall|v: int|
                0 <= v < old(self).nv() && #[trigger] old(self).assignment@[v] != Value::Undet
                    ==> final(self).level@[v] == old(self).level@[v],
    {
        let current = self.get_assignment_lit(lit);
        match current {
            Value::True => true,
            Value::False => false,
            Value::Undet => {
                let var_id = lit.var_id();
                let val = lit.value();
                self.assignment.set(var_id, val);
                self.reason.set(var_id, reason);
                self.level.set(var_id, self.trail_boundary.len());
                self.queue.push(lit);
                proof {
                    let q = self.queue@;
                    let n = q.len() as int;
                    let v = lit.var_idx();
                    assert(old(self).assignment@[v] == Value::Undet);
                    lemma_count_le_all(self.trail_boundary@, n - 1);
                    assert forall|i: int| 0 <= i < n - 1 implies (#[trigger] q[i]).var_idx() != v by {
                        assert(lit_value(old(self).assignment@, old(self).queue@[i])
                            == Value::True);
                    };
                    assert forall|i: int|
                        0 <= i < n implies lit_value(self.assignment@, #[trigger] q[i])
                        == Value::True by {
                        if i < n - 1 {
                            assert(q[i] == old(self).queue@[i]);
                            assert(q[i].var_idx() != v);
                            assert(self.assignment@[q[i].var_idx()]
                                == old(self).assignment@[q[i].var_idx()]);
                        }
                    };
                    assert forall|w: int|
                        0 <= w < self.nv() && #[trigger] self.assignment@[w] != Value::Undet
                        implies exists|i: int|
                            0 <= i < q.len() && (#[trigger] q[i]).var_idx() == w by {
                        if w == v {
                            assert(q[n - 1].var_idx() == w);
                        } else {
                            assert(old(self).assignment@[w] != Value::Undet);
                            let i = choose|i: int|
                                0 <= i < old(self).queue@.len() && (#[trigger] old(
                                    self,
                                ).queue@[i]).var_idx() == w;
                            assert(q[i].var_idx() == w);
                        }
                    };
                }
                true
            },
        }
    }

    /// Opens a new decision level and branches on `lit`.
    fn branch(&mut self, lit: Literal)
        requires
            old(self).wf_sizes(),
            old(self).wf_trail(),
            lit.ok(old(self).nv()),
            lit_value(old(self).assignment@, lit) == Value::Undet,
        ensures
            final(self).wf_sizes(),
            final(self).wf_trail(),
            final(self).nv() == old(self).nv(),
            final(self).clauses == old(self).clauses,
            final(self).watcher_clauses == old(self).watcher_clauses,
            final(self).cla_erased == old(self).cla_erased,
            final(self).cla_learnt == old(self).cla_learnt,
            final(self).learnt == old(self).learnt,
            final(self).queue_top == old(self).queue_top,
            final(self).var_activity == old(self).var_activity,
            final(self).cla_activity == old(self).cla_activity,
            final(self).n_restart == old(self).n_restart,
            final(self).n_conflict == old(self).n_conflict,
            final(self).n_propagation == old(self).n_propagation,
            final(self).trail_boundary@ == old(self).trail_boundary@.push(
                old(self).queue@.len() as usize,
            ),
            final(self).queue@ == old(self).queue@.push(lit),
            lit_value(final(self).assignment@, lit) == Value::True,
            final(self).reason@ == old(self).reason@.update(lit.var_idx(), Reason::Branch),
            final(self).level@ == old(self).level@.update(
                lit.var_idx(),
                (old(self).trail_boundary@.len() + 1) as usize,
            ),
            forall|v: int|
                0 <= v < old(self).nv() && #[trigger] old(self).assignment@[v] != Value::Undet
                    ==> final(self).level@[v] == old(self).level@[v],
            forall|w: int|
                0 <= w < old(self).nv() && w != lit.var_idx() ==> final(self).assignment@[w]
                    == old(self).assignment@[w],
    {
        self.trail_boundary.push(self.queue.len());
        proof {
            assert forall|i: int|
                0 <= i < self.queue@.len() implies count_le(self.trail_boundary@, i) == count_le(
                old(self).trail_boundary@,
                i,
            ) by {
                lemma_count_le_push(old(self).trail_boundary@, old(self).queue@.len() as usize, i);
            };
            assert(self.wf_sizes());
            assert(self.wf_trail());
        }
        let ok = self.decide_checked(lit, Reason::Branch);
        assert(ok);
    }

    /// Pops the top trail entry, unassigning its variable.  Never pops past
    /// the most recent decision-level boundary.
    fn pop_queue(&mut self)
        requires
            old(self).wf_sizes(),
            old(self).wf_trail(),
            old(self).trail_boundary@.len() > 0,
            old(self).queue@.len() > old(self).trail_boundary@.last(),
        ensures
            final(self).wf_sizes(),
            final(self).wf_trail(),
            final(self).nv() == old(self).nv(),
            final(self).queue@ == old(self).queue@.drop_last(),
            final(self).assignment@ == old(self).assignment@.update(
                old(self).queue@.last().var_idx(),
                Value::Undet,
            ),
            final(self).reason@ == old(self).reason@.update(
                old(self).queue@.last().var_idx(),
                Reason::Undet,
            ),
            final(self).level@ == old(self).level@.update(
                old(self).queue@.last().var_idx(),
                LEVEL_NONE,
            ),
            final(self).clauses == old(self).clauses,
            final(self).watcher_clauses == old(self).watcher_clauses,
            final(self).cla_erased == old(self).cla_erased,
            final(self).cla_learnt == old(self).cla_learnt,
            final(self).learnt == old(self).learnt,
            final(self).trail_boundary == old(self).trail_boundary,
            final(self).queue_top == old(self).queue_top,
            final(self).var_activity == old(self).var_activity,
            final(self).cla_activity == old(self).cla_activity,
            final(self).n_restart == old(self).n_restart,
            final(self).n_conflict == old(self).n_conflict,
            final(self).n_propagation == old(self).n_propagation,
    {
        let l = self.queue[self.queue.len() - 1];
        let _ = self.queue.pop();
        let v = l.var();
        self.clear(v);
        proof {
            let q = self.queue@;
            let n = q.len() as int;
            assert(q =~= old(self).queue@.drop_last());
            assert forall|i: int| 0 <= i < n implies (#[trigger] q[i]).var_idx() != l.var_idx() by {
                assert(old(self).queue@[i].var_idx() != old(self).queue@[n as int].var_idx());
            };
            assert forall|w: int|
                0 <= w < self.nv() && #[trigger] self.assignment@[w] != Value::Undet
                implies exists|i: int| 0 <= i < q.len() && (#[trigger] q[i]).var_idx() == w by {
                assert(old(self).assignment@[w] != Value::Undet);
                let i = choose|i: int|
                    0 <= i < old(self).queue@.len() && (#[trigger] old(self).queue@[i]).var_idx()
                        == w;
                assert(w != l.var_idx());
                assert(i < n);
                assert(q[i].var_idx() == w);
            };
        }
    }

    /// Pops every trail entry of the current decision level, then the level
    /// boundary itself.  Assignments of lower levels survive unchanged.
    fn pop_level(&mut self)
        requires
            old(self).wf_sizes(),
            old(self).wf_trail(),
            old(self).trail_boundary@.len() > 0,
        ensures
            final(self).wf_sizes(),
            final(self).wf_trail(),
            final(self).nv() == old(self).nv(),
            final(self).trail_boundary@ == old(self).trail_boundary@.drop_last(),
            final(self).queue@ == old(self).queue@.take(old(self).trail_boundary@.last() as int),
            forall|v: int|
                0 <= v < old(self).nv() && #[trigger] final(self).assignment@[v] != Value::Undet
                    ==> final(self).level@[v] == old(self).level@[v],
            final(self).clauses == old(self).clauses,
            final(self).watcher_clauses == old(self).watcher_clauses,
            final(self).cla_erased == old(self).cla_erased,
            final(self).cla_learnt == old(self).cla_learnt,
            final(self).learnt == old(self).learnt,
            final(self).queue_top == old(self).queue_top,
            final(self).var_activity == old(self).var_activity,
            final(self).cla_activity == old(self).cla_activity,
            final(self).n_restart == old(self).n_restart,
            final(self).n_conflict == old(self).n_conflict,
            final(self).n_propagation == old(self).n_propagation,
            forall|v: int|
                0 <= v < old(self).nv() && #[trigger] final(self).assignment@[v] != Value::Undet
                    ==> final(self).assignment@[v] == old(self).assignment@[v]
                        && final(self).reason@[v] == old(self).reason@[v],
            forall|v: int|
                0 <= v < old(self).nv() && #[trigger] old(self).assignment@[v] != Value::Undet
                    && old(self).level@[v] < old(self).trail_boundary@.len()
                    ==> final(self).assignment@[v] != Value::Undet,
    {
        let target = self.trail_boundary[self.trail_boundary.len() - 1];
        while self.queue.len() > target
            invariant
                self.wf_sizes(),
                self.wf_trail(),
                self.nv() == old(self).nv(),
                self.trail_boundary@ == old(self).trail_boundary@,
                old(self).trail_boundary@.len() > 0,
                target == old(self).trail_boundary@.last(),
                self.queue@.len() >= target,
                self.queue@.len() <= old(self).queue@.len(),
                self.queue@ == old(self).queue@.take(self.queue@.len() as int),
                forall|v: int|
                    0 <= v < self.nv() && #[trigger] self.assignment@[v] != Value::Undet
                        ==> self.level@[v] == old(self).level@[v],
                self.clauses == old(self).clauses,
                self.watcher_clauses == old(self).watcher_clauses,
                self.cla_erased == old(self).cla_erased,
                self.cla_learnt == old(self).cla_learnt,
                self.learnt == old(self).learnt,
                self.queue_top == old(self).queue_top,
                self.var_activity == old(self).var_activity,
                self.cla_activity == old(self).cla_activity,
                self.n_restart == old(self).n_restart,
                self.n_conflict == old(self).n_conflict,
                self.n_propagation == old(self).n_propagation,
                forall|v: int|
                    0 <= v < self.nv() && #[trigger] self.assignment@[v] != Value::Undet
                        ==> self.assignment@[v] == old(self).assignment@[v] && self.reason@[v]
                        == old(self).reason@[v],
            decreases self.queue@.len(),
        {
            proof {
                assert(old(self).queue@.take(self.queue@.len() as int).drop_last()
                    =~= old(self).queue@.take(self.queue@.len() - 1));
            }
            self.pop_queue();
        }
        let _ = self.trail_boundary.pop();
        proof {
            let tbo = old(self).trail_boundary@;
            let tb = self.trail_boundary@;
            assert(tb =~= tbo.drop_last());
            let q = self.queue@;
            assert(q.len() == target);
            assert forall|i: int|
                0 <= i < q.len() implies self.level@[(#[trigger] q[i]).var_idx()] == count_le(
                tb,
                i,
            ) by {
                assert(count_le(tbo, i) == count_le(tb, i) + if tbo.last() <= i {
                    1int
                } else {
                    0int
                });
                assert(tbo.last() > i);
            };
            assert(self.wf_trail());
            assert forall|v: int|
                0 <= v < old(self).nv() && #[trigger] old(self).assignment@[v] != Value::Undet
                    && old(self).level@[v] < tbo.len() implies self.assignment@[v]
                != Value::Undet by {
                let i = choose|i: int|
                    0 <= i < old(self).queue@.len() && (#[trigger] old(self).queue@[i]).var_idx()
                        == v;
                if i >= target {
                    lemma_count_le_top(tbo, i);
                    assert(old(self).level@[v] == tbo.len());
                } else {
                    assert(q[i] == old(self).queue@[i]);
                    assert(lit_value(self.assignment@, q[i]) == Value::True);
                }
            };
        }
    }

    /// Unwinds every decision level and marks the whole trail as
    /// propagated: the state after a restart.
    fn restart_unwind(&mut self)
        requires
            old(self).wf_sizes(),
            old(self).wf_trail(),
        ensures
            final(self).wf_sizes(),
            final(self).wf_trail(),
            final(self).nv() == old(self).nv(),
            final(self).trail_boundary@.len() == 0,
            final(self).queue_top == final(self).queue@.len(),
            forall|v: int|
                0 <= v < old(self).nv() && #[trigger] final(self).assignment@[v] != Value::Undet
                    ==> final(self).level@[v] == old(self).level@[v],
            final(self).clauses == old(self).clauses,
            final(self).watcher_clauses == old(self).watcher_clauses,
            final(self).cla_erased == old(self).cla_erased,
            final(self).cla_learnt == old(self).cla_learnt,
            final(self).learnt == old(self).learnt,
            final(self).var_activity == old(self).var_activity,
            final(self).cla_activity == old(self).cla_activity,
            final(self).n_restart == old(self).n_restart,
            final(self).n_conflict == old(self).n_conflict,
            final(self).n_propagation == old(self).n_propagation,
            forall|v: int|
                0 <= v < old(self).nv() && #[trigger] final(self).assignment@[v] != Value::Undet
                    ==> final(self).assignment@[v] == old(self).assignment@[v],
            forall|v: int|
                0 <= v < old(self).nv() && #[trigger] old(self).assignment@[v] != Value::Undet
                    && old(self).level@[v] == 0 ==> final(self).assignment@[v]
                    == old(self).assignment@[v],
    {
        while self.trail_boundary.len() > 0
            invariant
                self.wf_sizes(),
                self.wf_trail(),
                self.nv() == old(self).nv(),
                forall|v: int|
                    0 <= v < self.nv() && #[trigger] self.assignment@[v] != Value::Undet
                        ==> self.level@[v] == old(self).level@[v],
                self.clauses == old(self).clauses,
                self.watcher_clauses == old(self).watcher_clauses,
                self.cla_erased == old(self).cla_erased,
                self.cla_learnt == old(self).cla_learnt,
                self.learnt == old(self).learnt,
                self.var_activity == old(self).var_activity,
                self.cla_activity == old(self).cla_activity,
                self.n_restart == old(self).n_restart,
                self.n_conflict == old(self).n_conflict,
                self.n_propagation == old(self).n_propagation,
                forall|v: int|
                    0 <= v < self.nv() && #[trigger] self.assignment@[v] != Value::Undet
                        ==> self.assignment@[v] == old(self).assignment@[v],
                forall|v: int|
                    0 <= v < self.nv() && #[trigger] old(self).assignment@[v] != Value::Undet
                        && old(self).level@[v] == 0 ==> self.assignment@[v]
                        == old(self).assignment@[v],
            decreases self.trail_boundary@.len(),
        {
            self.pop_level();
        }
        self.queue_top = self.queue.len();
    }

    /// Appends clause identifier `id` to the watcher list with index `w`.
    fn push_watch(&mut self, w: usize, id: usize)
        requires
            w < old(self).watcher_clauses@.len(),
        ensures
            final(self).watcher_clauses@.len() == old(self).watcher_clauses@.len(),
            final(self).watcher_clauses@[w as int]@ == old(self).watcher_clauses@[w as int]@.push(
                id,
            ),
            forall|x: int|
                0 <= x < old(self).watcher_clauses@.len() && x != w
                    ==> final(self).watcher_clauses@[x] == old(self).watcher_clauses@[x],
            final(self).assignment == old(self).assignment,
            final(self).clauses == old(self).clauses,
            final(self).queue == old(self).queue,
            final(self).reason == old(self).reason,
            final(self).level == old(self).level,
            final(self).trail_boundary == old(self).trail_boundary,
            final(self).queue_top == old(self).queue_top,
            final(self).var_activity == old(self).var_activity,
            final(self).cla_activity == old(self).cla_activity,
            final(self).cla_erased == old(self).cla_erased,
            final(self).cla_learnt == old(self).cla_learnt,
            final(self).learnt == old(self).learnt,
            final(self).n_restart == old(self).n_restart,
            final(self).n_conflict == old(self).n_conflict,
            final(self).n_propagation == old(self).n_propagation,
    {
        let mut l: Vec<usize> = Vec::new();
        self.watcher_clauses.set_and_swap(w, &mut l);
        l.push(id);
        self.watcher_clauses.set_and_swap(w, &mut l);
        proof {
            assert(final(self).watcher_clauses@ =~= old(self).watcher_clauses@.update(
                w as int,
                final(self).watcher_clauses@[w as int],
            ));
        }
    }

    /// The preference order used to pick the second watched position: an
    /// assigned literal outranks an unassigned one, and among assigned
    /// literals a higher decision level outranks a lower one.
    pub open spec fn watch_key(self, l: Literal) -> int {
        if self.assignment@[l.var_idx()] == Value::Undet {
            0
        } else {
            self.level@[l.var_idx()] + 1
        }
    }

    /// Whether `cand` outranks `cur` in the second-watch preference order.
    fn watch_pref_above(&self, cand: Literal, cur: Literal) -> (r: bool)
        requires
            cand.ok(self.nv()),
            cur.ok(self.nv()),
            self.level@.len() == self.nv(),
        ensures
            r == (self.watch_key(cand) > self.watch_key(cur)),
    {
        let cand_assigned = !matches!(self.get_assignment(cand.var()), Value::Undet);
        let cur_assigned = !matches!(self.get_assignment(cur.var()), Value::Undet);
        if cand_assigned {
            if cur_assigned {
                self.level[cand.var_id()] > self.level[cur.var_id()]
            } else {
                true
            }
        } else {
            false
        }
    }

    /// Stores a clause in the arena, flagged as learned or not.
    ///
    /// The empty clause is refused.  A unit clause is stored without watches
    /// and its literal enqueued at the current level; the result is `false`
    /// exactly when that literal is already falsified.  A longer clause has
    /// a literal of maximal preference swapped into the second watched
    /// position and is registered in the watcher lists of the negations of
    /// its first two literals.
    fn add_clause_with(&mut self, clause: Vec<Literal>, learnt_flag: bool) -> (b: bool)
        requires
            old(self).wf(),
            forall|i: int| 0 <= i < clause@.len() ==> (#[trigger] clause@[i]).ok(old(self).nv()),
            forall|i: int, j: int| 0 <= i < j < clause@.len() ==> clause@[i] != clause@[j],
        ensures
            final(self).wf(),
            final(self).nv() == old(self).nv(),
            final(self).trail_boundary@ == old(self).trail_boundary@,
            final(self).queue_top == old(self).queue_top,
            final(self).learnt@ == old(self).learnt@,
            final(self).level@.len() == old(self).level@.len(),
            final(self).var_activity == old(self).var_activity,
            final(self).n_restart == old(self).n_restart,
            final(self).n_conflict == old(self).n_conflict,
            final(self).n_propagation == old(self).n_propagation,
            clause@.len() == 0 ==> !b && *final(self) == *old(self),
            clause@.len() == 1 ==> {
                &&& final(self).nc() == old(self).nc()
                &&& final(self).clauses == old(self).clauses
                &&& final(self).cla_erased == old(self).cla_erased
                &&& final(self).cla_learnt == old(self).cla_learnt
                &&& final(self).cla_activity == old(self).cla_activity
                &&& final(self).watcher_clauses == old(self).watcher_clauses
                &&& (b <==> lit_value(old(self).assignment@, clause@[0]) != Value::False)
                &&& (b ==> lit_value(final(self).assignment@, clause@[0]) == Value::True)
                &&& (!b ==> *final(self) == *old(self))
                &&& (lit_value(old(self).assignment@, clause@[0]) == Value::True
                    ==> *final(self) == *old(self))
                &&& (lit_value(old(self).assignment@, clause@[0]) == Value::Undet ==> {
                    &&& final(self).queue@ == old(self).queue@.push(clause@[0])
                    &&& final(self).reason@ == old(self).reason@.update(
                        clause@[0].var_idx(),
                        Reason::Branch,
                    )
                    &&& final(self).level@ == old(self).level@.update(
                        clause@[0].var_idx(),
                        old(self).trail_boundary@.len() as usize,
                    )
                })
            },
            clause@.len() >= 2 ==> {
                &&& b
                &&& final(self).nc() == old(self).nc() + 1
                &&& forall|c: int|
                    0 <= c < old(self).nc() ==> final(self).clauses@[c] == old(self).clauses@[c]
                &&& final(self).cla_erased@ == old(self).cla_erased@.push(false)
                &&& final(self).cla_learnt@ == old(self).cla_learnt@.push(learnt_flag)
                &&& same_lits(final(self).clauses@[old(self).nc()]@, clause@)
                &&& final(self).clauses@[old(self).nc()]@.len() == clause@.len()
                &&& final(self).clauses@[old(self).nc()]@[0] == clause@[0]
                &&& final(self).assignment@ == old(self).assignment@
                &&& final(self).queue@ == old(self).queue@
                &&& final(self).reason@ == old(self).reason@
                &&& final(self).level@ == old(self).level@
                &&& forall|j: int|
                    1 <= j < clause@.len() ==> final(self).watch_key(
                        #[trigger] final(self).clauses@[old(self).nc()]@[j],
                    ) <= final(self).watch_key(final(self).clauses@[old(self).nc()]@[1])
            },
    {
        let clause_id = self.clauses.len();
        if clause.len() == 0 {
            return false;
        }
        if clause.len() == 1 {
            // unit clauses bypass the arena and the watches: the literal is
            // enqueued at the current decision level
            let l0 = clause[0];
            let r = self.decide_checked(l0, Reason::Branch);
            return r;
        }
        let mut cl = clause;
        // swap a literal of maximal preference into the second watched position
        let mut m: usize = 1;
        let mut jj: usize = 2;
        while jj < cl.len()
            invariant
                cl@.len() >= 2,
                1 <= m < jj <= cl@.len(),
                self == old(self),
                old(self).wf(),
                forall|i: int| 0 <= i < cl@.len() ==> (#[trigger] cl@[i]).ok(old(self).nv()),
                forall|j: int|
                    1 <= j < jj ==> self.watch_key(cl@[j]) <= self.watch_key(cl@[m as int]),
            decreases cl@.len() - jj,
        {
            let cj = cl[jj];
            let cm = cl[m];
            if self.watch_pref_above(cj, cm) {
                m = jj;
            }
            jj += 1;
        }
        proof {
            lemma_swap_lits(cl@, 1, m as int);
        }
        let ghost cl_before = cl@;
        let c1 = cl[1];
        let cm = cl[m];
        cl.set(1, cm);
        cl.set(m, c1);
        proof {
            if m == 1 {
                assert(cl@ =~= cl_before);
            }
            assert(cl@ == cl_before.update(1, cl_before[m as int]).update(m as int, cl_before[1]));
        }
        let w0 = cl[0].negate();
        let w1 = cl[1].negate();
        self.push_watch(w0.0, clause_id);
        self.push_watch(w1.0, clause_id);
        self.clauses.push(cl);
        self.cla_activity.add_entry();
        self.cla_activity.bump(clause_id);
        self.cla_erased.push(false);
        self.cla_learnt.push(learnt_flag);
        proof {
            let f = *final(self);
            let o = *old(self);
            let nc0 = o.nc();
            let stored = f.clauses@[nc0]@;
            assert(stored == cl@);
            assert(stored[0] == clause@[0]);
            // the two watcher lists of the new clause contain it
            assert(f.watcher_clauses@[w0.0 as int]@.contains(clause_id)) by {
                if w0.0 != w1.0 {
                    assert(f.watcher_clauses@[w0.0 as int]@[f.watcher_clauses@[w0.0 as int]@.len()
                        - 1] == clause_id);
                } else {
                    assert(f.watcher_clauses@[w0.0 as int]@[f.watcher_clauses@[w0.0 as int]@.len()
                        - 1] == clause_id);
                }
            };
            assert(f.watcher_clauses@[w1.0 as int]@.contains(clause_id)) by {
                assert(f.watcher_clauses@[w1.0 as int]@[f.watcher_clauses@[w1.0 as int]@.len() - 1]
                    == clause_id);
            };
            assert(watch_code(stored[0]) == w0.0 as int);
            assert(watch_code(stored[1]) == w1.0 as int);
            // previously registered clauses stay registered
            assert forall|c: int|
                0 <= c < f.nc() && !f.cla_erased@[c] && (#[trigger] f.clauses@[c])@.len() >= 2
                implies f.watcher_clauses@[watch_code(f.clauses@[c]@[0])]@.contains(c as usize)
                && f.watcher_clauses@[watch_code(f.clauses@[c]@[1])]@.contains(c as usize) by {
                if c < nc0 {
                    assert(f.clauses@[c] == o.clauses@[c]);
                    let wa = watch_code(o.clauses@[c]@[0]);
                    let wb = watch_code(o.clauses@[c]@[1]);
                    assert(o.watcher_clauses@[wa]@.contains(c as usize));
                    assert(o.watcher_clauses@[wb]@.contains(c as usize));
                    lemma_push_contains(o.watcher_clauses@[wa]@, c as usize, clause_id);
                    lemma_push_contains(
                        o.watcher_clauses@[wa]@.push(clause_id),
                        c as usize,
                        clause_id,
                    );
                    lemma_push_contains(o.watcher_clauses@[wb]@, c as usize, clause_id);
                    lemma_push_contains(
                        o.watcher_clauses@[wb]@.push(clause_id),
                        c as usize,
                        clause_id,
                    );
                }
            };
            // validity of the extended lists
            assert forall|w: int, k: int|
                0 <= w < f.watcher_clauses@.len() && 0 <= k < f.watcher_clauses@[w]@.len()
                implies {
                let id = (#[trigger] f.watcher_clauses@[w]@[k]) as int;
                &&& id < f.nc()
                &&& (!f.cla_erased@[id] ==> f.clauses@[id]@.len() >= 2)
            } by {
                let id = f.watcher_clauses@[w]@[k] as int;
                if w == w0.0 as int || w == w1.0 as int {
                    if k < o.watcher_clauses@[w]@.len() {
                        assert(o.watcher_clauses@[w]@[k] == f.watcher_clauses@[w]@[k]);
                    } else {
                        assert(id == nc0);
                    }
                } else {
                    assert(o.watcher_clauses@[w]@[k] == f.watcher_clauses@[w]@[k]);
                }
            };
            assert(f.wf_trail()) by {
                assert(forall|i: int|
                    0 <= i < f.queue@.len() ==> lit_value(f.assignment@, #[trigger] f.queue@[i])
                        == lit_value(o.assignment@, f.queue@[i]));
            };
        }
        true
    }

    /// Adds an input clause.
    ///
    /// Returns `false` when the clause is empty or when it is a unit clause
    /// whose literal is already falsified; in both cases the formula as
    /// admitted so far is unsatisfiable together with this clause.  A unit
    /// clause is otherwise enqueued at the current decision level.  Input
    /// clauses are never flagged as learned, so they are never erased.
    pub fn add_clause(&mut self, clause: Vec<Literal>) -> (b: bool)
        requires
            old(self).wf(),
            forall|i: int| 0 <= i < clause@.len() ==> (#[trigger] clause@[i]).ok(old(self).nv()),
            forall|i: int, j: int| 0 <= i < j < clause@.len() ==> clause@[i] != clause@[j],
        ensures
            final(self).wf(),
            final(self).nv() == old(self).nv(),
            clause@.len() == 0 ==> !b && *final(self) == *old(self),
            clause@.len() == 1 ==> {
                &&& final(self).nc() == old(self).nc()
                &&& final(self).clauses == old(self).clauses
                &&& (b <==> lit_value(old(self).assignment@, clause@[0]) != Value::False)
                &&& (b ==> lit_value(final(self).assignment@, clause@[0]) == Value::True)
                &&& (!b ==> *final(self) == *old(self))
                &&& (lit_value(old(self).assignment@, clause@[0]) == Value::True
                    ==> *final(self) == *old(self))
                &&& (lit_value(old(self).assignment@, clause@[0]) == Value::Undet ==> {
                    &&& final(self).queue@ == old(self).queue@.push(clause@[0])
                    &&& final(self).reason@ == old(self).reason@.update(
                        clause@[0].var_idx(),
                        Reason::Branch,
                    )
                    &&& final(self).level@ == old(self).level@.update(
                        clause@[0].var_idx(),
                        old(self).trail_boundary@.len() as usize,
                    )
                })
            },
            clause@.len() >= 2 ==> {
                &&& b
                &&& final(self).nc() == old(self).nc() + 1
                &&& forall|c: int|
                    0 <= c < old(self).nc() ==> final(self).clauses@[c] == old(self).clauses@[c]
                &&& final(self).cla_learnt@ == old(self).cla_learnt@.push(false)
                &&& final(self).cla_erased@ == old(self).cla_erased@.push(false)
                &&& same_lits(final(self).clauses@[old(self).nc()]@, clause@)
                &&& final(self).clauses@[old(self).nc()]@[0] == clause@[0]
                &&& final(self).assignment@ == old(self).assignment@
                &&& final(self).queue@ == old(self).queue@
                &&& forall|j: int|
                    1 <= j < clause@.len() ==> final(self).watch_key(
                        #[trigger] final(self).clauses@[old(self).nc()]@[j],
                    ) <= final(self).watch_key(final(self).clauses@[old(self).nc()]@[1])
            },
            final(self).trail_boundary@ == old(self).trail_boundary@,
            final(self).queue_top == old(self).queue_top,
            final(self).learnt@ == old(self).learnt@,
    {
        self.add_clause_with(clause, false)
    }

    /// Admits an analyzed clause as a learned clause: position 0 keeps the
    /// asserting literal, a maximum-level literal moves into the second
    /// watched position, and the clause joins the learned-clause index with
    /// a first activity bump.
    fn learn_clause(&mut self, clause: Vec<Literal>) -> (id: usize)
        requires
            old(self).wf(),
            clause@.len() >= 2,
            forall|i: int| 0 <= i < clause@.len() ==> (#[trigger] clause@[i]).ok(old(self).nv()),
            forall|i: int, j: int| 0 <= i < j < clause@.len() ==> clause@[i] != clause@[j],
        ensures
            final(self).wf(),
            final(self).nv() == old(self).nv(),
            id == old(self).nc(),
            final(self).nc() == old(self).nc() + 1,
            forall|c: int|
                0 <= c < old(self).nc() ==> final(self).clauses@[c] == old(self).clauses@[c],
            final(self).cla_erased@ == old(self).cla_erased@.push(false),
            final(self).cla_learnt@ == old(self).cla_learnt@.push(true),
            same_lits(final(self).clauses@[old(self).nc()]@, clause@),
            final(self).clauses@[old(self).nc()]@.len() == clause@.len(),
            final(self).clauses@[old(self).nc()]@[0] == clause@[0],
            final(self).learnt@ == old(self).learnt@.push(old(self).nc() as usize),
            final(self).assignment@ == old(self).assignment@,
            final(self).queue@ == old(self).queue@,
            final(self).reason@ == old(self).reason@,
            final(self).level@ == old(self).level@,
            final(self).trail_boundary@ == old(self).trail_boundary@,
            final(self).queue_top == old(self).queue_top,
            final(self).var_activity == old(self).var_activity,
            final(self).n_restart == old(self).n_restart,
            final(self).n_conflict == old(self).n_conflict,
            final(self).n_propagation == old(self).n_propagation,
            forall|j: int|
                1 <= j < clause@.len() ==> final(self).watch_key(
                    #[trigger] final(self).clauses@[old(self).nc()]@[j],
                ) <= final(self).watch_key(final(self).clauses@[old(self).nc()]@[1]),
    {
        let id = self.clauses.len();
        let _ = self.add_clause_with(clause, true);
        self.learnt.push(id);
        id
    }

    /// Detaches the watcher list with index `w`, leaving an empty list in
    /// its place.
    fn detach_watchers(&mut self, w: usize) -> (r: Vec<usize>)
        requires
            w < old(self).watcher_clauses@.len(),
        ensures
            r@ == old(self).watcher_clauses@[w as int]@,
            final(self).watcher_clauses@.len() == old(self).watcher_clauses@.len(),
            final(self).watcher_clauses@[w as int]@.len() == 0,
            forall|x: int|
                0 <= x < old(self).watcher_clauses@.len() && x != w
                    ==> final(self).watcher_clauses@[x] == old(self).watcher_clauses@[x],
            final(self).assignment == old(self).assignment,
            final(self).clauses == old(self).clauses,
            final(self).queue == old(self).queue,
            final(self).reason == old(self).reason,
            final(self).level == old(self).level,
            final(self).trail_boundary == old(self).trail_boundary,
            final(self).queue_top == old(self).queue_top,
            final(self).var_activity == old(self).var_activity,
            final(self).cla_activity == old(self).cla_activity,
            final(self).cla_erased == old(self).cla_erased,
            final(self).cla_learnt == old(self).cla_learnt,
            final(self).learnt == old(self).learnt,
            final(self).n_restart == old(self).n_restart,
            final(self).n_conflict == old(self).n_conflict,
            final(self).n_propagation == old(self).n_propagation,
    {
        let mut l: Vec<usize> = Vec::new();
        self.watcher_clauses.set_and_swap(w, &mut l);
        l
    }

    /// `self` agrees with `o` on every field, and on every clause except
    /// the one with identifier `cid`.
    pub open spec fn eq_except_clause(self, o: Solver, cid: int) -> bool {
        &&& self.assignment@ == o.assignment@
        &&& self.queue@ == o.queue@
        &&& self.reason@ == o.reason@
        &&& self.level@ == o.level@
        &&& self.watcher_clauses@ == o.watcher_clauses@
        &&& self.queue_top == o.queue_top
        &&& self.trail_boundary@ == o.trail_boundary@
        &&& self.var_activity == o.var_activity
        &&& self.cla_activity == o.cla_activity
        &&& self.cla_erased@ == o.cla_erased@
        &&& self.cla_learnt@ == o.cla_learnt@
        &&& self.learnt@ == o.learnt@
        &&& self.n_restart == o.n_restart
        &&& self.n_conflict == o.n_conflict
        &&& self.n_propagation == o.n_propagation
        &&& self.clauses@.len() == o.clauses@.len()
        &&& forall|c: int|
            0 <= c < o.clauses@.len() && c != cid ==> self.clauses@[c] == o.clauses@[c]
    }

    /// Trail entry `i` was forced: its variable's reason is a clause that
    /// contains the entry's literal while every other literal of that
    /// clause is false.  Unit propagation creates exactly such entries.
    pub open spec fn forced_entry(self, i: int) -> bool {
        let l = self.queue@[i];
        exists|c: int|
            {
                &&& 0 <= c < self.nc()
                &&& self.reason@[l.var_idx()] == Reason::Clause(c as usize)
                &&& (#[trigger] self.clauses@[c])@.contains(l)
                &&& forall|x: Literal|
                    self.clauses@[c]@.contains(x) && x != l ==> lit_value(self.assignment@, x)
                        == Value::False
            }
    }

    /// Visits clause `clause_id` because literal `p` just became true and
    /// the clause is registered as watching `!p`.
    ///
    /// Restores the watch discipline for this clause: if the clause is
    /// satisfied through its other watch or becomes unit, the watch stays
    /// (`Kept`, after enqueueing the unit literal in the latter case); if an
    /// unfalsified literal exists beyond the watches, it becomes the new
    /// second watch (`Moved`); if the clause does not watch `!p` at all the
    /// entry is stale (`Stale`); otherwise every literal is false
    /// (`Conflict`).
    fn propagate_clause(&mut self, clause_id: usize, p: Literal) -> (r: Visit)
        requires
            old(self).wf_sizes(),
            old(self).wf_trail(),
            old(self).wf_clauses(),
            clause_id < old(self).nc(),
            old(self).clauses@[clause_id as int]@.len() >= 2,
            p.ok(old(self).nv()),
            lit_value(old(self).assignment@, p) == Value::True,
        ensures
            final(self).wf_sizes(),
            final(self).wf_trail(),
            final(self).wf_clauses(),
            final(self).nv() == old(self).nv(),
            final(self).nc() == old(self).nc(),
            final(self).watcher_clauses@ == old(self).watcher_clauses@,
            final(self).cla_erased@ == old(self).cla_erased@,
            final(self).cla_learnt@ == old(self).cla_learnt@,
            final(self).learnt@ == old(self).learnt@,
            final(self).trail_boundary@ == old(self).trail_boundary@,
            final(self).queue_top == old(self).queue_top,
            final(self).var_activity == old(self).var_activity,
            final(self).cla_activity == old(self).cla_activity,
            final(self).n_restart == old(self).n_restart,
            final(self).n_conflict == old(self).n_conflict,
            final(self).n_propagation == old(self).n_propagation,
            forall|c: int|
                0 <= c < old(self).nc() && c != clause_id ==> final(self).clauses@[c] == old(
                    self,
                ).clauses@[c],
            same_lits(
                final(self).clauses@[clause_id as int]@,
                old(self).clauses@[clause_id as int]@,
            ),
            final(self).clauses@[clause_id as int]@.len() == old(self).clauses@[clause_id as int]@.len(),
            old(self).queue@.len() <= final(self).queue@.len(),
            forall|i: int|
                0 <= i < old(self).queue@.len() ==> final(self).queue@[i] == old(self).queue@[i],
            forall|v: int|
                0 <= v < old(self).nv() && #[trigger] old(self).assignment@[v] != Value::Undet
                    ==> final(self).assignment@[v] == old(self).assignment@[v]
                        && final(self).reason@[v] == old(self).reason@[v] && final(self).level@[v]
                        == old(self).level@[v],
            ({
                let cl = final(self).clauses@[clause_id as int]@;
                let ol = old(self).clauses@[clause_id as int]@;
                match r {
                    Visit::Kept => {
                        &&& cl[1] == p.spec_negate()
                        &&& ((cl[0] == ol[0] && cl[1] == ol[1]) || (cl[0] == ol[1] && cl[1]
                            == ol[0]))
                        &&& watch_code(cl[1]) == p.0
                        &&& lit_value(final(self).assignment@, cl[0]) == Value::True
                        &&& ((lit_value(old(self).assignment@, cl[0]) == Value::True
                            && final(self).eq_except_clause(*old(self), clause_id as int)) || {
                            // the clause was unit: its first watch is enqueued,
                            // forced by this clause, every other literal false
                            &&& lit_value(old(self).assignment@, cl[0]) == Value::Undet
                            &&& final(self).queue@ == old(self).queue@.push(cl[0])
                            &&& final(self).reason@ == old(self).reason@.update(
                                cl[0].var_idx(),
                                Reason::Clause(clause_id),
                            )
                            &&& forall|j: int|
                                1 <= j < cl.len() ==> lit_value(
                                    final(self).assignment@,
                                    #[trigger] cl[j],
                                ) == Value::False
                        })
                    },
                    Visit::Moved(nw) => {
                        &&& nw == watch_code(cl[1])
                        &&& nw < 2 * old(self).nv()
                        &&& nw != p.0
                        &&& (cl[0] == ol[0] || cl[0] == ol[1])
                        &&& watch_code(cl[0]) != p.0
                        &&& lit_value(final(self).assignment@, cl[1]) != Value::False
                        &&& final(self).eq_except_clause(*old(self), clause_id as int)
                    },
                    Visit::Stale => {
                        &&& final(self).eq_except_clause(*old(self), clause_id as int)
                        &&& cl == ol
                        &&& watch_code(cl[0]) != p.0
                        &&& watch_code(cl[1]) != p.0
                    },
                    Visit::Conflict => {
                        &&& cl[1] == p.spec_negate()
                        &&& ((cl[0] == ol[0] && cl[1] == ol[1]) || (cl[0] == ol[1] && cl[1]
                            == ol[0]))
                        &&& watch_code(cl[1]) == p.0
                        &&& final(self).eq_except_clause(*old(self), clause_id as int)
                        &&& forall|j: int|
                            0 <= j < cl.len() ==> lit_value(
                                final(self).assignment@,
                                #[trigger] cl[j],
                            ) == Value::False
                    },
                }
            }),
    {
        let np = p.negate();
        let mut cl: Vec<Literal> = Vec::new();
        self.clauses.set_and_swap(clause_id, &mut cl);
        let ghost o = *old(self);
        let ghost ol = cl@;
        proof {
            assert(ol == o.clauses@[clause_id as int]@);
        }
        if cl[0] == np {
            let a = cl[0];
            let b = cl[1];
            cl.set(0, b);
            cl.set(1, a);
            proof {
                lemma_swap_lits(ol, 0, 1);
                assert(cl@ == ol.update(0, ol[1]).update(1, ol[0]));
            }
        }
        proof {
            assert(same_lits(cl@, ol));
            assert(cl@.len() == ol.len());
            assert(forall|i: int| 0 <= i < cl@.len() ==> (#[trigger] cl@[i]).ok(o.nv()));
            assert(forall|i: int, j: int| 0 <= i < j < cl@.len() ==> cl@[i] != cl@[j]);
            assert((cl@[0] == ol[0] && cl@[1] == ol[1]) || (cl@[0] == ol[1] && cl@[1] == ol[0]));
        }
        if !(cl[1] == np) {
            // stale entry: the clause no longer watches `!p`
            self.clauses.set_and_swap(clause_id, &mut cl);
            proof {
                assert(self.clauses@ =~= o.clauses@);
                assert(self.eq_except_clause(o, clause_id as int));
                assert(self.wf_clauses());
                assert(self.wf_trail()) by {
                    assert(self.assignment@ == o.assignment@ && self.queue@ == o.queue@
                        && self.reason@ == o.reason@ && self.level@ == o.level@
                        && self.trail_boundary@ == o.trail_boundary@);
                };
                let fcl = self.clauses@[clause_id as int]@;
                assert(fcl[0] != p.spec_negate() && fcl[1] != p.spec_negate());
                assert(watch_code(fcl[0]) != p.0 && watch_code(fcl[1]) != p.0) by {
                    assert(fcl[0].spec_negate().spec_negate() == fcl[0]);
                    assert(fcl[1].spec_negate().spec_negate() == fcl[1]);
                    assert(p.spec_negate().spec_negate() == p);
                };
            }
            return Visit::Stale;
        }
        let c0 = cl[0];
        if matches!(self.get_assignment_lit(c0), Value::True) {
            self.clauses.set_and_swap(clause_id, &mut cl);
            proof {
                assert(self.eq_except_clause(o, clause_id as int));
                assert(self.clauses@[clause_id as int]@[1] == p.spec_negate());
                assert(self.clauses@[clause_id as int]@[0] == c0);
                assert(lit_value(self.assignment@, c0) == Value::True);
                assert(self.wf_clauses());
                assert(self.wf_trail()) by {
                    assert(self.assignment@ == o.assignment@ && self.queue@ == o.queue@
                        && self.reason@ == o.reason@ && self.level@ == o.level@
                        && self.trail_boundary@ == o.trail_boundary@);
                };
            }
            return Visit::Kept;
        }
        let n = cl.len();
        let mut k: usize = 2;
        while k < n
            invariant
                2 <= k <= n,
                n == cl@.len(),
                o == *old(self),
                clause_id < o.nc(),
                self.eq_except_clause(o, clause_id as int),
                self.clauses@[clause_id as int]@.len() == 0,
                o.wf_sizes(),
                o.wf_trail(),
                o.wf_clauses(),
                ol == o.clauses@[clause_id as int]@,
                ol.len() == n,
                p.ok(o.nv()),
                np == p.spec_negate(),
                c0 == cl@[0],
                cl@[1] == p.spec_negate(),
                same_lits(cl@, ol),
                (cl@[0] == ol[0] && cl@[1] == ol[1]) || (cl@[0] == ol[1] && cl@[1] == ol[0]),
                forall|i: int| 0 <= i < n ==> (#[trigger] cl@[i]).ok(o.nv()),
                forall|i: int, j: int| 0 <= i < j < n ==> cl@[i] != cl@[j],
                forall|j: int|
                    2 <= j < k ==> lit_value(self.assignment@, #[trigger] cl@[j]) == Value::False,
            decreases n - k,
        {
            let ck = cl[k];
            proof {
                assert(ck.ok(self.nv()));
            }
            if !matches!(self.get_assignment_lit(ck), Value::False) {
                let ghost before = cl@;
                let c1 = cl[1];
                cl.set(1, ck);
                cl.set(k, c1);
                proof {
                    lemma_swap_lits(before, 1, k as int);
                    assert(cl@ == before.update(1, before[k as int]).update(k as int, before[1]));
                }
                let nw = ck.negate();
                self.clauses.set_and_swap(clause_id, &mut cl);
                proof {
                    let fcl = self.clauses@[clause_id as int]@;
                    assert(fcl == before.update(1, before[k as int]).update(k as int, before[1]));
                    assert(fcl[1] == ck);
                    assert(lit_value(self.assignment@, fcl[1]) != Value::False);
                    assert(nw.0 == watch_code(fcl[1]));
                    assert(fcl[0] == c0);
                    assert(fcl[1] != p.spec_negate()) by {
                        assert(before[1] == p.spec_negate());
                        assert(before[k as int] != before[1]);
                    };
                    assert(c0 != p.spec_negate()) by {
                        assert(before[0] != before[1]);
                    };
                    assert(watch_code(fcl[0]) != p.0 && nw.0 != p.0) by {
                        assert(fcl[0].spec_negate().spec_negate() == fcl[0]);
                        assert(fcl[1].spec_negate().spec_negate() == fcl[1]);
                        assert(p.spec_negate().spec_negate() == p);
                    };
                    assert(self.wf_clauses());
                    assert(self.wf_trail()) by {
                        assert(self.assignment@ == o.assignment@ && self.queue@ == o.queue@
                            && self.reason@ == o.reason@ && self.level@ == o.level@
                            && self.trail_boundary@ == o.trail_boundary@);
                    };
                    assert(same_lits(fcl, ol));
                }
                return Visit::Moved(nw.0);
            }
            k += 1;
        }
        // every literal beyond the first watch is false, and so is `cl[1]`
        let ghost cl_final = cl@;
        self.clauses.set_and_swap(clause_id, &mut cl);
        proof {
            assert(self.clauses@[clause_id as int]@ == cl_final);
            assert(self.wf_clauses());
            assert(self.wf_trail()) by {
                assert(self.assignment@ == o.assignment@ && self.queue@ == o.queue@
                    && self.reason@ == o.reason@ && self.level@ == o.level@
                    && self.trail_boundary@ == o.trail_boundary@);
            };
        }
        let enq = self.decide_checked(c0, Reason::Clause(clause_id));
        if enq {
            proof {
                let fcl = self.clauses@[clause_id as int]@;
                assert(fcl == cl_final);
                assert(lit_value(o.assignment@, c0) != Value::True);
                assert(lit_value(o.assignment@, c0) == Value::Undet);
                assert(lit_value(self.assignment@, c0) == Value::True);
                assert forall|j: int|
                    1 <= j < fcl.len() implies lit_value(self.assignment@, #[trigger] fcl[j])
                    == Value::False by {
                    assert(lit_value(o.assignment@, fcl[j]) == Value::False);
                    if fcl[j].var_idx() == c0.var_idx() {
                        // the clause holds at most the two literals of a
                        // variable, so this one is the negation of the watch
                        assert(fcl[j] != fcl[0]);
                        assert(fcl[j].0 != c0.0);
                        assert(fcl[j].0 == c0.spec_negate().0) by {
                            assert(fcl[j].var_idx() == c0.var_idx());
                        };
                        assert(fcl[j] == c0.spec_negate());
                    } else {
                        assert(self.assignment@[fcl[j].var_idx()]
                            == o.assignment@[fcl[j].var_idx()]);
                    }
                };
            }
            Visit::Kept
        } else {
            proof {
                let fcl = self.clauses@[clause_id as int]@;
                assert(fcl == cl_final);
                assert(lit_value(self.assignment@, fcl[0]) == Value::False);
                assert(lit_value(self.assignment@, fcl[1]) == Value::False) by {
                    assert(fcl[1] == p.spec_negate());
                    assert(lit_value(self.assignment@, p) == Value::True);
                };
                assert forall|j: int|
                    0 <= j < fcl.len() implies lit_value(self.assignment@, #[trigger] fcl[j])
                    == Value::False by {
                    if j >= 2 {
                        assert(lit_value(o.assignment@, fcl[j]) == Value::False);
                    }
                };
            }
            Visit::Conflict
        }
    }

    /// Clause `c` appears in `ws` at or after position `i`.
    pub open spec fn in_suffix(ws: Seq<usize>, i: int, c: int) -> bool {
        exists|k: int| i <= k < ws.len() && ws[k] == c
    }

    /// The watcher invariant with one exception: a live clause may be
    /// registered for the literal with code `w` through the suffix of the
    /// detached list `ws` starting at `i` instead of through the list
    /// itself.
    pub open spec fn watchers_complete_except(self, w: int, ws: Seq<usize>, i: int) -> bool {
        forall|c: int|
            0 <= c < self.nc() && !self.cla_erased@[c] && (#[trigger] self.clauses@[c])@.len() >= 2
                ==> {
                let cl = self.clauses@[c]@;
                &&& (self.watcher_clauses@[watch_code(cl[0])]@.contains(c as usize) || (watch_code(
                    cl[0],
                ) == w && Self::in_suffix(ws, i, c)))
                &&& (self.watcher_clauses@[watch_code(cl[1])]@.contains(c as usize) || (watch_code(
                    cl[1],
                ) == w && Self::in_suffix(ws, i, c)))
            }
    }

    /// Advances the propagation counter without overflowing.
    fn count_propagation(&mut self)
        ensures
            *final(self) == (Solver { n_propagation: final(self).n_propagation, ..*old(self) }),
            final(self).n_propagation == if old(self).n_propagation < u64::MAX {
                (old(self).n_propagation + 1) as u64
            } else {
                u64::MAX
            },
            final(self).n_propagation >= old(self).n_propagation,
    {
        if self.n_propagation < u64::MAX {
            self.n_propagation = self.n_propagation + 1;
        }
    }

    /// Drains one detached watcher list: visits every live entry in order,
    /// reattaching kept watches, registering moved watches, dropping stale
    /// and erased entries, and stopping at the first falsified clause after
    /// reattaching the unvisited remainder.
    #[verifier::rlimit(100)]
    #[verifier::spinoff_prover]
    fn drain_list(&mut self, lit: Literal, watchers: Vec<usize>) -> (r: Option<usize>)
        requires
            old(self).wf_sizes(),
            old(self).wf_trail(),
            old(self).wf_clauses(),
            old(self).wf_learnt(),
            old(self).watchers_sound(),
            lit.ok(old(self).nv()),
            lit_value(old(self).assignment@, lit) == Value::True,
            forall|k: int|
                0 <= k < watchers@.len() ==> (#[trigger] watchers@[k]) < old(self).nc() && (!old(
                    self,
                ).cla_erased@[watchers@[k] as int]
                    ==> old(self).clauses@[watchers@[k] as int]@.len() >= 2),
            old(self).watchers_complete_except(lit.0 as int, watchers@, 0),
        ensures
            final(self).wf(),
            final(self).nv() == old(self).nv(),
            final(self).nc() == old(self).nc(),
            final(self).cla_erased@ == old(self).cla_erased@,
            final(self).cla_learnt@ == old(self).cla_learnt@,
            final(self).learnt@ == old(self).learnt@,
            final(self).trail_boundary@ == old(self).trail_boundary@,
            final(self).queue_top == old(self).queue_top,
            final(self).var_activity == old(self).var_activity,
            final(self).cla_activity == old(self).cla_activity,
            final(self).n_restart == old(self).n_restart,
            final(self).n_conflict == old(self).n_conflict,
            final(self).n_propagation >= old(self).n_propagation,
            forall|c: int|
                0 <= c < old(self).nc() ==> same_lits(
                    (#[trigger] final(self).clauses@[c])@,
                    old(self).clauses@[c]@,
                ) && final(self).clauses@[c]@.len() == old(self).clauses@[c]@.len(),
            old(self).queue@.len() <= final(self).queue@.len(),
            forall|i: int|
                0 <= i < old(self).queue@.len() ==> final(self).queue@[i] == old(self).queue@[i],
            forall|v: int|
                0 <= v < old(self).nv() && #[trigger] old(self).assignment@[v] != Value::Undet
                    ==> final(self).assignment@[v] == old(self).assignment@[v]
                        && final(self).level@[v] == old(self).level@[v],
            forall|i: int|
                old(self).queue@.len() <= i < final(self).queue@.len()
                    ==> final(self).forced_entry(i),
            forall|i: int|
                0 <= i < old(self).queue@.len() && old(self).forced_entry(i)
                    ==> final(self).forced_entry(i),
            r matches Some(cid) ==> cid < old(self).nc() && !old(self).cla_erased@[cid as int]
                && forall|j: int|
                0 <= j < final(self).clauses@[cid as int]@.len() ==> lit_value(
                    final(self).assignment@,
                    #[trigger] final(self).clauses@[cid as int]@[j],
                ) == Value::False,
    {
        let ghost o = *old(self);
        let ghost ws = watchers@;
        let ghost wdx = lit.0 as int;
        let n = watchers.len();
        let mut i: usize = 0;
        while i < n
            invariant
                i <= n,
                n == ws.len(),
                o == *old(self),
                ws == watchers@,
                wdx == lit.0 as int,
                lit.ok(o.nv()),
                self.wf_sizes(),
                self.wf_trail(),
                self.wf_clauses(),
                self.wf_learnt(),
                self.watchers_sound(),
                self.nv() == o.nv(),
                self.nc() == o.nc(),
                self.cla_erased@ == o.cla_erased@,
                self.cla_learnt@ == o.cla_learnt@,
                self.learnt@ == o.learnt@,
                self.trail_boundary@ == o.trail_boundary@,
                self.queue_top == o.queue_top,
                self.var_activity == o.var_activity,
                self.cla_activity == o.cla_activity,
                self.n_restart == o.n_restart,
                self.n_conflict == o.n_conflict,
                self.n_propagation >= o.n_propagation,
                forall|c: int|
                    0 <= c < o.nc() ==> same_lits(
                        (#[trigger] self.clauses@[c])@,
                        o.clauses@[c]@,
                    ) && self.clauses@[c]@.len() == o.clauses@[c]@.len(),
                o.queue@.len() <= self.queue@.len(),
                forall|j: int| 0 <= j < o.queue@.len() ==> self.queue@[j] == o.queue@[j],
                forall|v: int|
                    0 <= v < o.nv() && #[trigger] o.assignment@[v] != Value::Undet
                        ==> self.assignment@[v] == o.assignment@[v] && self.level@[v]
                        == o.level@[v],
                lit_value(self.assignment@, lit) == Value::True,
                forall|i2: int|
                    o.queue@.len() <= i2 < self.queue@.len() ==> self.forced_entry(i2),
                forall|i2: int|
                    0 <= i2 < o.queue@.len() && o.forced_entry(i2) ==> self.forced_entry(i2),
                forall|k: int|
                    0 <= k < ws.len() ==> (#[trigger] ws[k]) < o.nc() && (!self.cla_erased@[ws[k] as int]
                        ==> self.clauses@[ws[k] as int]@.len() >= 2),
                self.watchers_complete_except(wdx, ws, i as int),
            decreases n - i,
        {
            let cid = watchers[i];
            if self.cla_erased[cid] {
                proof {
                    assert forall|c: int|
                        0 <= c < self.nc() && !self.cla_erased@[c] && (
                        #[trigger] self.clauses@[c])@.len() >= 2 implies {
                        let cl = self.clauses@[c]@;
                        &&& (self.watcher_clauses@[watch_code(cl[0])]@.contains(c as usize) || (
                        watch_code(cl[0]) == wdx && Self::in_suffix(ws, i + 1, c)))
                        &&& (self.watcher_clauses@[watch_code(cl[1])]@.contains(c as usize) || (
                        watch_code(cl[1]) == wdx && Self::in_suffix(ws, i + 1, c)))
                    } by {
                        assert(c != cid);
                        if Self::in_suffix(ws, i as int, c) {
                            let k = choose|k: int| i <= k < ws.len() && ws[k] == c;
                            assert(k != i);
                        }
                    };
                }
                i += 1;
                continue ;
            }
            let ghost st0 = *self;
            self.count_propagation();
            let ghost pre = *self;
            proof {
                assert forall|i2: int|
                    o.queue@.len() <= i2 < pre.queue@.len() implies pre.forced_entry(i2) by {
                    lemma_forced_congruent(st0, pre, i2);
                };
                assert forall|i2: int|
                    0 <= i2 < o.queue@.len() && o.forced_entry(i2) implies pre.forced_entry(
                    i2,
                ) by {
                    lemma_forced_congruent(st0, pre, i2);
                };
            }
            let visit = self.propagate_clause(cid, lit);
            proof {
                assert(self.nc() == o.nc());
                assert forall|c: int|
                    0 <= c < o.nc() implies same_lits((#[trigger] self.clauses@[c])@, o.clauses@[c]@)
                    && self.clauses@[c]@.len() == o.clauses@[c]@.len() by {
                    assert(same_lits(pre.clauses@[c]@, o.clauses@[c]@));
                };
                // every trail entry that was forced stays forced, and a unit
                // enqueue makes one new forced entry
                assert forall|c: int|
                    0 <= c < pre.nc() implies same_lits(
                    (#[trigger] self.clauses@[c])@,
                    pre.clauses@[c]@,
                ) by {
                    if c != cid {
                        assert(self.clauses@[c] == pre.clauses@[c]);
                    }
                };
                lemma_forced_step(o, pre, *self, cid);
            }
            let ghost pv = *self;
            match visit {
                Visit::Kept => {
                    self.push_watch(lit.0, cid);
                    proof {
                        let cl = self.clauses@[cid as int]@;
                        assert(watch_code(cl[1]) == wdx);
                        assert(cl[0] != cl[1]);
                        assert(watch_code(cl[0]) != watch_code(cl[1])) by {
                            assert(cl[0].spec_negate().spec_negate() == cl[0]);
                            assert(cl[1].spec_negate().spec_negate() == cl[1]);
                        };
                        assert(self.watcher_clauses@[wdx]@.contains(cid)) by {
                            let l = self.watcher_clauses@[wdx]@;
                            assert(l[l.len() - 1] == cid);
                        };
                        assert forall|c: int|
                            0 <= c < self.nc() && !self.cla_erased@[c] && (
                            #[trigger] self.clauses@[c])@.len() >= 2 implies {
                            let ccl = self.clauses@[c]@;
                            &&& (self.watcher_clauses@[watch_code(ccl[0])]@.contains(c as usize)
                                || (watch_code(ccl[0]) == wdx && Self::in_suffix(ws, i + 1, c)))
                            &&& (self.watcher_clauses@[watch_code(ccl[1])]@.contains(c as usize)
                                || (watch_code(ccl[1]) == wdx && Self::in_suffix(ws, i + 1, c)))
                        } by {
                            let ccl = self.clauses@[c]@;
                            if c == cid {
                                assert(self.watcher_clauses@[watch_code(ccl[1])]@.contains(
                                    c as usize,
                                ));
                                assert(watch_code(ccl[0]) != wdx);
                                assert(pre.clauses@[c]@[0] == ccl[0] || pre.clauses@[c]@[1]
                                    == ccl[0]);
                                assert(pre.watcher_clauses@[watch_code(ccl[0])]@.contains(
                                    c as usize,
                                )) by {
                                    if !(pre.watcher_clauses@[watch_code(ccl[0])]@.contains(
                                        c as usize,
                                    )) {
                                        assert(watch_code(ccl[0]) == wdx);
                                    }
                                };
                                lemma_push_contains(
                                    pre.watcher_clauses@[watch_code(ccl[0])]@,
                                    c as usize,
                                    cid,
                                );
                                if watch_code(ccl[0]) != wdx {
                                    assert(self.watcher_clauses@[watch_code(ccl[0])]
                                        == pre.watcher_clauses@[watch_code(ccl[0])]);
                                }
                            } else {
                                assert(pre.clauses@[c] == self.clauses@[c]);
                                if Self::in_suffix(ws, i as int, c) {
                                    let k = choose|k: int| i <= k < ws.len() && ws[k] == c;
                                    assert(k != i);
                                }
                                lemma_push_contains(
                                    pre.watcher_clauses@[watch_code(ccl[0])]@,
                                    c as usize,
                                    cid,
                                );
                                lemma_push_contains(
                                    pre.watcher_clauses@[watch_code(ccl[1])]@,
                                    c as usize,
                                    cid,
                                );
                            }
                        };
                    }
                },
                Visit::Moved(nw) => {
                    self.push_watch(nw, cid);
                    proof {
                        let cl = self.clauses@[cid as int]@;
                        assert(watch_code(cl[1]) == nw);
                        assert(self.watcher_clauses@[nw as int]@.contains(cid)) by {
                            let l = self.watcher_clauses@[nw as int]@;
                            assert(l[l.len() - 1] == cid);
                        };
                        assert forall|c: int|
                            0 <= c < self.nc() && !self.cla_erased@[c] && (
                            #[trigger] self.clauses@[c])@.len() >= 2 implies {
                            let ccl = self.clauses@[c]@;
                            &&& (self.watcher_clauses@[watch_code(ccl[0])]@.contains(c as usize)
                                || (watch_code(ccl[0]) == wdx && Self::in_suffix(ws, i + 1, c)))
                            &&& (self.watcher_clauses@[watch_code(ccl[1])]@.contains(c as usize)
                                || (watch_code(ccl[1]) == wdx && Self::in_suffix(ws, i + 1, c)))
                        } by {
                            let ccl = self.clauses@[c]@;
                            if c == cid {
                                assert(self.watcher_clauses@[watch_code(ccl[1])]@.contains(
                                    c as usize,
                                ));
                                assert(watch_code(ccl[0]) != wdx);
                                assert(pre.clauses@[c]@[0] == ccl[0] || pre.clauses@[c]@[1]
                                    == ccl[0]);
                                assert(pre.watcher_clauses@[watch_code(ccl[0])]@.contains(
                                    c as usize,
                                )) by {
                                    if !(pre.watcher_clauses@[watch_code(ccl[0])]@.contains(
                                        c as usize,
                                    )) {
                                        assert(watch_code(ccl[0]) == wdx);
                                    }
                                };
                                lemma_push_contains(
                                    pre.watcher_clauses@[watch_code(ccl[0])]@,
                                    c as usize,
                                    cid,
                                );
                            } else {
                                assert(pre.clauses@[c] == self.clauses@[c]);
                                if Self::in_suffix(ws, i as int, c) {
                                    let k = choose|k: int| i <= k < ws.len() && ws[k] == c;
                                    assert(k != i);
                                }
                                lemma_push_contains(
                                    pre.watcher_clauses@[watch_code(ccl[0])]@,
                                    c as usize,
                                    cid,
                                );
                                lemma_push_contains(
                                    pre.watcher_clauses@[watch_code(ccl[1])]@,
                                    c as usize,
                                    cid,
                                );
                            }
                        };
                    }
                },
                Visit::Stale => {
                    proof {
                        assert forall|c: int|
                            0 <= c < self.nc() && !self.cla_erased@[c] && (
                            #[trigger] self.clauses@[c])@.len() >= 2 implies {
                            let ccl = self.clauses@[c]@;
                            &&& (self.watcher_clauses@[watch_code(ccl[0])]@.contains(c as usize)
                                || (watch_code(ccl[0]) == wdx && Self::in_suffix(ws, i + 1, c)))
                            &&& (self.watcher_clauses@[watch_code(ccl[1])]@.contains(c as usize)
                                || (watch_code(ccl[1]) == wdx && Self::in_suffix(ws, i + 1, c)))
                        } by {
                            let ccl = self.clauses@[c]@;
                            if c == cid {
                                assert(watch_code(ccl[0]) != wdx && watch_code(ccl[1]) != wdx);
                            } else {
                                if Self::in_suffix(ws, i as int, c) {
                                    let k = choose|k: int| i <= k < ws.len() && ws[k] == c;
                                    assert(k != i);
                                }
                            }
                        };
                    }
                },
                Visit::Conflict => {
                    self.push_watch(lit.0, cid);
                    let ghost mid = *self;
                    let mut j = i + 1;
                    while j < n
                        invariant
                            i < j <= n,
                            n == ws.len(),
                            ws == watchers@,
                            wdx == lit.0 as int,
                            lit.ok(mid.nv()),
                            mid.wf_sizes(),
                            self.wf_sizes(),
                            self.wf_trail(),
                            self.wf_clauses(),
                            self.wf_learnt(),
                            self.watchers_sound(),
                            self.assignment == mid.assignment,
                            self.clauses == mid.clauses,
                            self.queue == mid.queue,
                            self.reason == mid.reason,
                            self.level == mid.level,
                            self.trail_boundary == mid.trail_boundary,
                            self.queue_top == mid.queue_top,
                            self.var_activity == mid.var_activity,
                            self.cla_activity == mid.cla_activity,
                            self.cla_erased == mid.cla_erased,
                            self.cla_learnt == mid.cla_learnt,
                            self.learnt == mid.learnt,
                            self.n_restart == mid.n_restart,
                            self.n_conflict == mid.n_conflict,
                            self.n_propagation == mid.n_propagation,
                            forall|k: int|
                                0 <= k < ws.len() ==> (#[trigger] ws[k]) < self.nc() && (!self.cla_erased@[ws[k] as int]
                                    ==> self.clauses@[ws[k] as int]@.len() >= 2),
                            self.watcher_clauses@.len() == mid.watcher_clauses@.len(),
                            forall|x: int|
                                0 <= x < mid.watcher_clauses@.len() && x != wdx
                                    ==> self.watcher_clauses@[x] == mid.watcher_clauses@[x],
                            forall|e: usize|
                                mid.watcher_clauses@[wdx]@.contains(e)
                                    ==> self.watcher_clauses@[wdx]@.contains(e),
                            forall|k: int|
                                i < k < j && !self.cla_erased@[ws[k] as int]
                                    ==> self.watcher_clauses@[wdx]@.contains(ws[k]),
                        decreases n - j,
                    {
                        let cj = watchers[j];
                        if !self.cla_erased[cj] {
                            let ghost before = *self;
                            self.push_watch(lit.0, cj);
                            proof {
                                let l = self.watcher_clauses@[wdx]@;
                                assert(l[l.len() - 1] == cj);
                                assert forall|e: usize|
                                    mid.watcher_clauses@[wdx]@.contains(e)
                                    implies self.watcher_clauses@[wdx]@.contains(e) by {
                                    lemma_push_contains(before.watcher_clauses@[wdx]@, e, cj);
                                };
                                assert forall|k: int|
                                    i < k < j + 1 && !self.cla_erased@[ws[k] as int]
                                    implies self.watcher_clauses@[wdx]@.contains(ws[k]) by {
                                    if k < j {
                                        lemma_push_contains(
                                            before.watcher_clauses@[wdx]@,
                                            ws[k],
                                            cj,
                                        );
                                    }
                                };
                            }
                        } else {
                            proof {
                                assert forall|k: int|
                                    i < k < j + 1 && !self.cla_erased@[ws[k] as int]
                                    implies self.watcher_clauses@[wdx]@.contains(ws[k]) by {
                                    assert(k != j);
                                };
                            }
                        }
                        j += 1;
                    }
                    proof {
                        let cl = self.clauses@[cid as int]@;
                        assert(self.watcher_clauses@[wdx]@.contains(cid)) by {
                            assert(mid.watcher_clauses@[wdx]@.contains(cid)) by {
                                let l = mid.watcher_clauses@[wdx]@;
                                assert(l[l.len() - 1] == cid);
                            };
                        };
                        assert(self.watchers_complete()) by {
                            assert forall|c: int|
                                0 <= c < self.nc() && !self.cla_erased@[c] && (
                                #[trigger] self.clauses@[c])@.len() >= 2 implies {
                                let ccl = self.clauses@[c]@;
                                &&& self.watcher_clauses@[watch_code(ccl[0])]@.contains(c as usize)
                                &&& self.watcher_clauses@[watch_code(ccl[1])]@.contains(c as usize)
                            } by {
                                let ccl = self.clauses@[c]@;
                                if c == cid {
                                    assert(watch_code(ccl[1]) == wdx);
                                    assert(ccl[0] != ccl[1]);
                                    assert(watch_code(ccl[0]) != watch_code(ccl[1])) by {
                                        assert(ccl[0].spec_negate().spec_negate() == ccl[0]);
                                        assert(ccl[1].spec_negate().spec_negate() == ccl[1]);
                                    };
                                    assert(pre.clauses@[c]@[0] == ccl[0] || pre.clauses@[c]@[1]
                                        == ccl[0]);
                                    assert(mid.watcher_clauses@[watch_code(ccl[0])]@.contains(
                                        c as usize,
                                    )) by {
                                        assert(pre.watcher_clauses@[watch_code(ccl[0])]@.contains(
                                            c as usize,
                                        )) by {
                                            if !(pre.watcher_clauses@[watch_code(
                                                ccl[0],
                                            )]@.contains(c as usize)) {
                                                assert(watch_code(ccl[0]) == wdx);
                                            }
                                        };
                                        lemma_push_contains(
                                            pre.watcher_clauses@[watch_code(ccl[0])]@,
                                            c as usize,
                                            cid,
                                        );
                                    };
                                } else {
                                    assert(pre.clauses@[c] == self.clauses@[c]);
                                    // either registered in a list already, or found in the
                                    // reattached remainder of the detached list
                                    lemma_push_contains(
                                        pre.watcher_clauses@[watch_code(ccl[0])]@,
                                        c as usize,
                                        cid,
                                    );
                                    lemma_push_contains(
                                        pre.watcher_clauses@[watch_code(ccl[1])]@,
                                        c as usize,
                                        cid,
                                    );
                                    if !(mid.watcher_clauses@[watch_code(ccl[0])]@.contains(
                                        c as usize,
                                    )) {
                                        assert(!(pre.watcher_clauses@[watch_code(
                                            ccl[0],
                                        )]@.contains(c as usize)));
                                        assert(watch_code(ccl[0]) == wdx && Self::in_suffix(ws, i as int, c));
                                        let k = choose|k: int| i <= k < ws.len() && ws[k] == c;
                                        assert(k != i);
                                        assert(self.watcher_clauses@[wdx]@.contains(c as usize));
                                    }
                                    if !(mid.watcher_clauses@[watch_code(ccl[1])]@.contains(
                                        c as usize,
                                    )) {
                                        assert(!(pre.watcher_clauses@[watch_code(
                                            ccl[1],
                                        )]@.contains(c as usize)));
                                        assert(watch_code(ccl[1]) == wdx && Self::in_suffix(ws, i as int, c));
                                        let k = choose|k: int| i <= k < ws.len() && ws[k] == c;
                                        assert(k != i);
                                        assert(self.watcher_clauses@[wdx]@.contains(c as usize));
                                    }
                                }
                            };
                        };
                    }
                    proof {
                        assert forall|i2: int|
                            o.queue@.len() <= i2 < self.queue@.len() implies self.forced_entry(
                            i2,
                        ) by {
                            lemma_forced_congruent(pv, *self, i2);
                        };
                        assert forall|i2: int|
                            0 <= i2 < o.queue@.len() && o.forced_entry(i2)
                            implies self.forced_entry(i2) by {
                            lemma_forced_congruent(pv, *self, i2);
                        };
                    }
                    return Some(cid);
                },
            }
            proof {
                assert forall|i2: int|
                    o.queue@.len() <= i2 < self.queue@.len() implies self.forced_entry(i2) by {
                    lemma_forced_congruent(pv, *self, i2);
                };
                assert forall|i2: int|
                    0 <= i2 < o.queue@.len() && o.forced_entry(i2) implies self.forced_entry(
                    i2,
                ) by {
                    lemma_forced_congruent(pv, *self, i2);
                };
            }
            i += 1;
        }
        proof {
            assert(self.watchers_complete()) by {
                assert forall|c: int|
                    0 <= c < self.nc() && !self.cla_erased@[c] && (
                    #[trigger] self.clauses@[c])@.len() >= 2 implies {
                    let ccl = self.clauses@[c]@;
                    &&& self.watcher_clauses@[watch_code(ccl[0])]@.contains(c as usize)
                    &&& self.watcher_clauses@[watch_code(ccl[1])]@.contains(c as usize)
                } by {
                    assert(!Self::in_suffix(ws, n as int, c));
                };
            };
        }
        None
    }

    /// Drains the propagation queue.  Returns `None` when a fixed point is
    /// reached, or the identifier of a falsified clause; either way, every
    /// trail entry below `queue_top` has been propagated.
    fn propagate(&mut self) -> (r: Option<usize>)
        requires
            old(self).wf(),
            old(self).queue_top <= old(self).queue@.len(),
        ensures
            final(self).wf(),
            final(self).nv() == old(self).nv(),
            final(self).nc() == old(self).nc(),
            final(self).cla_erased@ == old(self).cla_erased@,
            final(self).cla_learnt@ == old(self).cla_learnt@,
            final(self).learnt@ == old(self).learnt@,
            final(self).trail_boundary@ == old(self).trail_boundary@,
            final(self).var_activity == old(self).var_activity,
            final(self).cla_activity == old(self).cla_activity,
            final(self).n_restart == old(self).n_restart,
            final(self).n_conflict == old(self).n_conflict,
            final(self).n_propagation >= old(self).n_propagation,
            forall|c: int|
                0 <= c < old(self).nc() ==> same_lits(
                    (#[trigger] final(self).clauses@[c])@,
                    old(self).clauses@[c]@,
                ) && final(self).clauses@[c]@.len() == old(self).clauses@[c]@.len(),
            old(self).queue@.len() <= final(self).queue@.len(),
            forall|i: int|
                0 <= i < old(self).queue@.len() ==> final(self).queue@[i] == old(self).queue@[i],
            forall|v: int|
                0 <= v < old(self).nv() && #[trigger] old(self).assignment@[v] != Value::Undet
                    ==> final(self).assignment@[v] == old(self).assignment@[v]
                        && final(self).level@[v] == old(self).level@[v],
            final(self).queue_top == final(self).queue@.len(),
            forall|i: int|
                old(self).queue@.len() <= i < final(self).queue@.len()
                    ==> final(self).forced_entry(i),
            forall|i: int|
                0 <= i < old(self).queue@.len() && old(self).forced_entry(i)
                    ==> final(self).forced_entry(i),
            r matches Some(cid) ==> cid < old(self).nc() && !old(self).cla_erased@[cid as int]
                && forall|j: int|
                0 <= j < final(self).clauses@[cid as int]@.len() ==> lit_value(
                    final(self).assignment@,
                    #[trigger] final(self).clauses@[cid as int]@[j],
                ) == Value::False,
    {
        let ghost o = *old(self);
        loop
            invariant
                o == *old(self),
                self.wf(),
                self.queue_top <= self.queue@.len(),
                self.nv() == o.nv(),
                self.nc() == o.nc(),
                self.cla_erased@ == o.cla_erased@,
                self.cla_learnt@ == o.cla_learnt@,
                self.learnt@ == o.learnt@,
                self.trail_boundary@ == o.trail_boundary@,
                self.var_activity == o.var_activity,
                self.cla_activity == o.cla_activity,
                self.n_restart == o.n_restart,
                self.n_conflict == o.n_conflict,
                self.n_propagation >= o.n_propagation,
                forall|c: int|
                    0 <= c < o.nc() ==> same_lits(
                        (#[trigger] self.clauses@[c])@,
                        o.clauses@[c]@,
                    ) && self.clauses@[c]@.len() == o.clauses@[c]@.len(),
                o.queue@.len() <= self.queue@.len(),
                forall|i: int| 0 <= i < o.queue@.len() ==> self.queue@[i] == o.queue@[i],
                forall|v: int|
                    0 <= v < o.nv() && #[trigger] o.assignment@[v] != Value::Undet
                        ==> self.assignment@[v] == o.assignment@[v] && self.level@[v]
                        == o.level@[v],
                forall|i: int|
                    o.queue@.len() <= i < self.queue@.len() ==> self.forced_entry(i),
                forall|i: int|
                    0 <= i < o.queue@.len() && o.forced_entry(i) ==> self.forced_entry(i),
            decreases self.nv() + 1 - self.queue_top,
        {
            if !(self.queue_top < self.queue.len()) {
                return None;
            }
            proof {
                lemma_trail_len_bound(self.queue@, self.nv());
            }
            let lit = self.queue[self.queue_top];
            proof {
                assert(lit.ok(self.nv()));
                assert(lit_value(self.assignment@, lit) == Value::True);
                assert(lit.0 < 2 * self.nv());
            }
            let ghost st = *self;
            let ncx = self.clauses.len();
            let ws = self.detach_watchers(lit.0);
            proof {
                assert(ws@ == st.watcher_clauses@[lit.0 as int]@);
                assert(self.nc() == ncx);
                assert(self.clauses == st.clauses && self.cla_erased == st.cla_erased);
                assert forall|k: int|
                    0 <= k < ws@.len() implies (#[trigger] ws@[k]) < self.nc() && (!self.cla_erased@[ws@[k] as int]
                        ==> self.clauses@[ws@[k] as int]@.len() >= 2) by {
                    assert(st.watchers_sound());
                    assert(st.watcher_clauses@[lit.0 as int]@[k] == ws@[k]);
                };
                assert(self.watchers_complete_except(lit.0 as int, ws@, 0)) by {
                    assert forall|c: int|
                        0 <= c < self.nc() && !self.cla_erased@[c] && (
                        #[trigger] self.clauses@[c])@.len() >= 2 implies {
                        let cl = self.clauses@[c]@;
                        &&& (self.watcher_clauses@[watch_code(cl[0])]@.contains(c as usize) || (
                        watch_code(cl[0]) == lit.0 as int && Self::in_suffix(ws@, 0, c)))
                        &&& (self.watcher_clauses@[watch_code(cl[1])]@.contains(c as usize) || (
                        watch_code(cl[1]) == lit.0 as int && Self::in_suffix(ws@, 0, c)))
                    } by {
                        let cl = self.clauses@[c]@;
                        assert(st.watchers_complete());
                        assert(st.clauses@[c]@ == cl);
                        assert(st.watcher_clauses@[watch_code(cl[0])]@.contains(c as usize));
                        assert(st.watcher_clauses@[watch_code(cl[1])]@.contains(c as usize));
                        if watch_code(cl[0]) == lit.0 as int {
                            assert(ws@.contains(c as usize));
                            let k = choose|k: int| 0 <= k < ws@.len() && ws@[k] == c as usize;
                            assert(c < ncx);
                            assert(ws@[k] == c);
                            assert(Self::in_suffix(ws@, 0, c));
                        } else {
                            assert(self.watcher_clauses@[watch_code(cl[0])]
                                == st.watcher_clauses@[watch_code(cl[0])]);
                        }
                        if watch_code(cl[1]) == lit.0 as int {
                            assert(ws@.contains(c as usize));
                            let k = choose|k: int| 0 <= k < ws@.len() && ws@[k] == c as usize;
                            assert(c < ncx);
                            assert(ws@[k] == c);
                            assert(Self::in_suffix(ws@, 0, c));
                        } else {
                            assert(self.watcher_clauses@[watch_code(cl[1])]
                                == st.watcher_clauses@[watch_code(cl[1])]);
                        }
                    };
                };
            }
            let ghost dpre = *self;
            proof {
                assert forall|i2: int|
                    o.queue@.len() <= i2 < dpre.queue@.len() implies dpre.forced_entry(i2) by {
                    lemma_forced_congruent(st, dpre, i2);
                };
                assert forall|i2: int|
                    0 <= i2 < o.queue@.len() && o.forced_entry(i2) implies dpre.forced_entry(
                    i2,
                ) by {
                    lemma_forced_congruent(st, dpre, i2);
                };
            }
            let r = self.drain_list(lit, ws);
            proof {
                assert forall|i2: int|
                    o.queue@.len() <= i2 < self.queue@.len() implies self.forced_entry(i2) by {
                    if i2 < dpre.queue@.len() {
                        assert(dpre.forced_entry(i2));
                    }
                };
                assert forall|i2: int|
                    0 <= i2 < o.queue@.len() && o.forced_entry(i2) implies self.forced_entry(
                    i2,
                ) by {
                    assert(dpre.forced_entry(i2));
                };
            }
            let ghost pd = *self;
            match r {
                Some(cid) => {
                    self.queue_top = self.queue.len();
                    proof {
                        assert forall|i2: int|
                            o.queue@.len() <= i2 < self.queue@.len() implies self.forced_entry(
                            i2,
                        ) by {
                            lemma_forced_congruent(pd, *self, i2);
                        };
                        assert forall|i2: int|
                            0 <= i2 < o.queue@.len() && o.forced_entry(i2)
                            implies self.forced_entry(i2) by {
                            lemma_forced_congruent(pd, *self, i2);
                        };
                    }
                    return Some(cid);
                },
                None => {
                    self.queue_top = self.queue_top + 1;
                    proof {
                        lemma_trail_len_bound(self.queue@, self.nv());
                        assert forall|i2: int|
                            o.queue@.len() <= i2 < self.queue@.len() implies self.forced_entry(
                            i2,
                        ) by {
                            lemma_forced_congruent(pd, *self, i2);
                        };
                        assert forall|i2: int|
                            0 <= i2 < o.queue@.len() && o.forced_entry(i2)
                            implies self.forced_entry(i2) by {
                            lemma_forced_congruent(pd, *self, i2);
                        };
                    }
                },
            }
        }
    }

    /// Analyzes the falsified clause `conflict` and returns a first-UIP
    /// learned clause: position 0 holds the asserting literal, whose
    /// variable sits at the current decision level, and every other literal
    /// is falsified at a strictly lower level, each on a distinct variable.
    /// The walk consumes the trail entries of the current level that it
    /// resolves past; the decision-level boundary itself stays.  `None` is
    /// returned from the defensive paths (a non-false literal in a reason
    /// clause, an exhausted trail segment, a branch where a forcing clause
    /// was expected); ruling those out would take a forced-reason trail
    /// invariant that is not among the proved properties, so the contract
    /// does not promise success.
    #[verifier::rlimit(60)]
    fn analyze(&mut self, conflict: usize) -> (r: Option<Vec<Literal>>)
        requires
            old(self).wf(),
            old(self).trail_boundary@.len() > 0,
            conflict < old(self).nc(),
        ensures
            final(self).wf(),
            final(self).nv() == old(self).nv(),
            final(self).nc() == old(self).nc(),
            final(self).clauses == old(self).clauses,
            final(self).watcher_clauses == old(self).watcher_clauses,
            final(self).cla_erased == old(self).cla_erased,
            final(self).cla_learnt == old(self).cla_learnt,
            final(self).learnt == old(self).learnt,
            final(self).trail_boundary == old(self).trail_boundary,
            forall|v: int|
                0 <= v < old(self).nv() && #[trigger] final(self).assignment@[v] != Value::Undet
                    ==> final(self).level@[v] == old(self).level@[v],
            final(self).queue_top == old(self).queue_top,
            final(self).n_restart == old(self).n_restart,
            final(self).n_conflict == old(self).n_conflict,
            final(self).n_propagation == old(self).n_propagation,
            final(self).queue@.len() <= old(self).queue@.len(),
            final(self).queue@ == old(self).queue@.take(final(self).queue@.len() as int),
            forall|v: int|
                0 <= v < old(self).nv() && #[trigger] final(self).assignment@[v] != Value::Undet
                    ==> final(self).assignment@[v] == old(self).assignment@[v],
            forall|v: int|
                0 <= v < old(self).nv() && #[trigger] old(self).assignment@[v] != Value::Undet
                    && old(self).level@[v] < old(self).trail_boundary@.len()
                    ==> final(self).assignment@[v] == old(self).assignment@[v],
            r matches Some(out) ==> {
                &&& out@.len() >= 1
                &&& forall|i: int| 0 <= i < out@.len() ==> (#[trigger] out@[i]).ok(old(self).nv())
                &&& forall|i: int, j: int|
                    0 <= i < j < out@.len() ==> (#[trigger] out@[i]).var_idx() != (
                    #[trigger] out@[j]).var_idx()
                &&& forall|i: int|
                    0 <= i < out@.len() ==> lit_value(final(self).assignment@, #[trigger] out@[i])
                        == Value::False
                &&& final(self).assignment@[out@[0].var_idx()] != Value::Undet
                &&& final(self).level@[out@[0].var_idx()] == old(self).trail_boundary@.len()
                &&& forall|i: int|
                    1 <= i < out@.len() ==> final(self).assignment@[(#[trigger] out@[i]).var_idx()]
                        != Value::Undet && final(self).level@[out@[i].var_idx()] < old(
                        self,
                    ).trail_boundary@.len()
            },
    {
        let ghost o = *old(self);
        let nv = self.assignment.len();
        let mut visited: Vec<bool> = Vec::new();
        while visited.len() < nv
            invariant
                visited@.len() <= nv,
                forall|k: int| 0 <= k < visited@.len() ==> !(#[trigger] visited@[k]),
            decreases nv - visited@.len(),
        {
            visited.push(false);
        }
        let mut counter: usize = 0;
        let mut rest: Vec<Literal> = Vec::new();
        let mut p_opt: Option<Literal> = None;
        let mut cur: usize = conflict;
        let level_now = self.trail_boundary.len();
        loop
            invariant
                o == *old(self),
                self.wf(),
                self.nv() == o.nv(),
                self.nc() == o.nc(),
                nv == o.nv(),
                self.clauses == o.clauses,
                self.watcher_clauses == o.watcher_clauses,
                self.cla_erased == o.cla_erased,
                self.cla_learnt == o.cla_learnt,
                self.learnt == o.learnt,
                self.trail_boundary == o.trail_boundary,
                forall|v: int|
                    0 <= v < o.nv() && #[trigger] self.assignment@[v] != Value::Undet
                        ==> self.level@[v] == o.level@[v],
                self.queue_top == o.queue_top,
                self.n_restart == o.n_restart,
                self.n_conflict == o.n_conflict,
                self.n_propagation == o.n_propagation,
                self.queue@.len() <= o.queue@.len(),
                self.queue@ == o.queue@.take(self.queue@.len() as int),
                forall|v: int|
                    0 <= v < o.nv() && #[trigger] self.assignment@[v] != Value::Undet
                        ==> self.assignment@[v] == o.assignment@[v],
                forall|v: int|
                    0 <= v < o.nv() && #[trigger] o.assignment@[v] != Value::Undet
                        && o.level@[v] < level_now ==> self.assignment@[v] == o.assignment@[v],
                level_now == o.trail_boundary@.len(),
                level_now > 0,
                cur < o.nc(),
                visited@.len() == nv,
                forall|k: int|
                    0 <= k < rest@.len() ==> {
                    let l = #[trigger] rest@[k];
                    &&& l.ok(nv as int)
                    &&& visited@[l.var_idx()]
                    &&& self.assignment@[l.var_idx()] != Value::Undet
                    &&& self.level@[l.var_idx()] < level_now
                    &&& lit_value(self.assignment@, l) == Value::False
                },
                forall|k1: int, k2: int|
                    0 <= k1 < k2 < rest@.len() ==> (#[trigger] rest@[k1]).var_idx() != (
                    #[trigger] rest@[k2]).var_idx(),
                p_opt matches Some(pl) ==> pl.var_idx() < nv && self.assignment@[pl.var_idx()]
                    == Value::Undet,
            decreases self.queue@.len(),
        {
            let ghost qlen0 = self.queue@.len();
            match p_opt {
                Some(pl) => {
                    let unm = pl.var_id();
                    visited.set(unm, false);
                    proof {
                        assert forall|k: int| 0 <= k < rest@.len() implies visited@[(
                        #[trigger] rest@[k]).var_idx()] by {
                            assert(rest@[k].var_idx() != pl.var_idx());
                        };
                    }
                },
                None => {},
            }
            self.cla_activity.bump(cur);
            let clen = self.clauses[cur].len();
            let mut j: usize = 0;
            while j < clen
                invariant
                    o == *old(self),
                    self.wf(),
                    self.nv() == o.nv(),
                    self.nc() == o.nc(),
                    nv == o.nv(),
                    self.clauses == o.clauses,
                    self.watcher_clauses == o.watcher_clauses,
                    self.cla_erased == o.cla_erased,
                    self.cla_learnt == o.cla_learnt,
                    self.learnt == o.learnt,
                    self.trail_boundary == o.trail_boundary,
                    forall|v: int|
                        0 <= v < o.nv() && #[trigger] self.assignment@[v] != Value::Undet
                            ==> self.level@[v] == o.level@[v],
                    self.queue_top == o.queue_top,
                    self.n_restart == o.n_restart,
                    self.n_conflict == o.n_conflict,
                    self.n_propagation == o.n_propagation,
                    self.queue@.len() <= o.queue@.len(),
                    self.queue@ == o.queue@.take(self.queue@.len() as int),
                    forall|v: int|
                        0 <= v < o.nv() && #[trigger] self.assignment@[v] != Value::Undet
                            ==> self.assignment@[v] == o.assignment@[v],
                    forall|v: int|
                        0 <= v < o.nv() && #[trigger] o.assignment@[v] != Value::Undet
                            && o.level@[v] < level_now ==> self.assignment@[v]
                            == o.assignment@[v],
                    level_now == o.trail_boundary@.len(),
                    level_now > 0,
                    cur < o.nc(),
                    self.queue@.len() == qlen0,
                    j <= clen,
                    clen == self.clauses@[cur as int]@.len(),
                    visited@.len() == nv,
                    forall|k: int|
                        0 <= k < rest@.len() ==> {
                        let l = #[trigger] rest@[k];
                        &&& l.ok(nv as int)
                        &&& visited@[l.var_idx()]
                        &&& self.assignment@[l.var_idx()] != Value::Undet
                        &&& self.level@[l.var_idx()] < level_now
                        &&& lit_value(self.assignment@, l) == Value::False
                    },
                    forall|k1: int, k2: int|
                        0 <= k1 < k2 < rest@.len() ==> (#[trigger] rest@[k1]).var_idx() != (
                        #[trigger] rest@[k2]).var_idx(),
                    p_opt matches Some(pl) ==> pl.var_idx() < nv && self.assignment@[pl.var_idx()]
                        == Value::Undet,
                decreases clen - j,
            {
                let q = self.clauses[cur][j];
                let skip = match p_opt {
                    Some(pl) => q == pl,
                    None => false,
                };
                if !skip {
                    let vid = q.var_id();
                    if !visited[vid] {
                        visited.set(vid, true);
                        self.var_activity.bump(vid);
                        if !matches!(self.get_assignment_lit(q), Value::False) {
                            return None;
                        }
                        proof {
                            // a falsified literal's variable is assigned, so it
                            // sits on the trail at a level of at most the
                            // current one
                            assert(self.assignment@[q.var_idx()] != Value::Undet);
                            let ti = choose|ti: int|
                                0 <= ti < self.queue@.len() && (
                                #[trigger] self.queue@[ti]).var_idx() == q.var_idx();
                            lemma_count_le_bound(self.trail_boundary@, ti);
                            assert(self.level@[q.var_idx()] <= level_now);
                        }
                        if self.level[vid] == level_now {
                            if counter == usize::MAX {
                                return None;
                            }
                            counter += 1;
                        } else {
                            rest.push(q);
                        }
                    }
                }
                j += 1;
            }
            // walk the trail backward to the most recent visited variable
            let bnd = self.trail_boundary[level_now - 1];
            while self.queue.len() > bnd
                invariant
                    o == *old(self),
                    self.wf(),
                    self.nv() == o.nv(),
                    self.nc() == o.nc(),
                    nv == o.nv(),
                    self.clauses == o.clauses,
                    self.watcher_clauses == o.watcher_clauses,
                    self.cla_erased == o.cla_erased,
                    self.cla_learnt == o.cla_learnt,
                    self.learnt == o.learnt,
                    self.trail_boundary == o.trail_boundary,
                    forall|v: int|
                        0 <= v < o.nv() && #[trigger] self.assignment@[v] != Value::Undet
                            ==> self.level@[v] == o.level@[v],
                    self.queue_top == o.queue_top,
                    self.n_restart == o.n_restart,
                    self.n_conflict == o.n_conflict,
                    self.n_propagation == o.n_propagation,
                    self.queue@.len() <= o.queue@.len(),
                    self.queue@ == o.queue@.take(self.queue@.len() as int),
                    forall|v: int|
                        0 <= v < o.nv() && #[trigger] self.assignment@[v] != Value::Undet
                            ==> self.assignment@[v] == o.assignment@[v],
                    forall|v: int|
                        0 <= v < o.nv() && #[trigger] o.assignment@[v] != Value::Undet
                            && o.level@[v] < level_now ==> self.assignment@[v]
                            == o.assignment@[v],
                    level_now == o.trail_boundary@.len(),
                    level_now > 0,
                    bnd == self.trail_boundary@.last(),
                    self.queue@.len() >= bnd,
                    self.queue@.len() <= qlen0,
                    visited@.len() == nv,
                    forall|k: int|
                        0 <= k < rest@.len() ==> {
                        let l = #[trigger] rest@[k];
                        &&& l.ok(nv as int)
                        &&& visited@[l.var_idx()]
                        &&& self.assignment@[l.var_idx()] != Value::Undet
                        &&& self.level@[l.var_idx()] < level_now
                        &&& lit_value(self.assignment@, l) == Value::False
                    },
                    forall|k1: int, k2: int|
                        0 <= k1 < k2 < rest@.len() ==> (#[trigger] rest@[k1]).var_idx() != (
                        #[trigger] rest@[k2]).var_idx(),
                decreases self.queue@.len(),
            {
                let top = self.queue[self.queue.len() - 1];
                if visited[top.var_id()] {
                    break ;
                }
                proof {
                    lemma_count_le_top(self.trail_boundary@, self.queue@.len() - 1);
                    assert(self.level@[self.queue@.last().var_idx()] == level_now);
                    assert forall|k: int| 0 <= k < rest@.len() implies (#[trigger] rest@[k]).var_idx()
                        != self.queue@.last().var_idx() by {
                        assert(self.level@[rest@[k].var_idx()] < level_now);
                    };
                    assert(o.queue@.take(self.queue@.len() as int).drop_last() =~= o.queue@.take(
                        self.queue@.len() - 1,
                    ));
                }
                self.pop_queue();
            }
            if !(self.queue.len() > bnd) {
                return None;
            }
            let pb = self.queue[self.queue.len() - 1];
            if !visited[pb.var_id()] {
                return None;
            }
            proof {
                lemma_count_le_top(self.trail_boundary@, self.queue@.len() - 1);
                assert(self.level@[pb.var_idx()] == level_now);
                assert(lit_value(self.assignment@, pb) == Value::True);
                assert(self.assignment@[pb.var_idx()] != Value::Undet);
            }
            if counter == 0 {
                return None;
            }
            counter -= 1;
            if counter == 0 {
                let neg = pb.negate();
                let mut out: Vec<Literal> = Vec::new();
                out.push(neg);
                let mut t: usize = 0;
                while t < rest.len()
                    invariant
                        t <= rest@.len(),
                        out@.len() == 1 + t,
                        out@[0] == neg,
                        forall|k: int| 0 <= k < t ==> out@[k + 1] == rest@[k],
                    decreases rest@.len() - t,
                {
                    let rl = rest[t];
                    out.push(rl);
                    t += 1;
                }
                proof {
                    assert(lit_value(self.assignment@, neg) == Value::False);
                    assert(neg.var_idx() == pb.var_idx());
                    assert(neg.ok(nv as int));
                    assert forall|i: int, jx: int|
                        0 <= i < jx < out@.len() implies (#[trigger] out@[i]).var_idx() != (
                        #[trigger] out@[jx]).var_idx() by {
                        if i == 0 {
                            assert(out@[jx] == rest@[jx - 1]);
                            assert(self.level@[rest@[jx - 1].var_idx()] < level_now);
                        } else {
                            assert(out@[i] == rest@[i - 1]);
                            assert(out@[jx] == rest@[jx - 1]);
                        }
                    };
                    assert forall|i: int| 0 <= i < out@.len() implies (#[trigger] out@[i]).ok(
                        o.nv(),
                    ) && lit_value(self.assignment@, out@[i]) == Value::False by {
                        if i >= 1 {
                            assert(out@[i] == rest@[i - 1]);
                        }
                    };
                    assert forall|i: int|
                        1 <= i < out@.len() implies self.assignment@[(
                    #[trigger] out@[i]).var_idx()] != Value::Undet && self.level@[out@[i].var_idx()]
                        < o.trail_boundary@.len() by {
                        assert(out@[i] == rest@[i - 1]);
                    };
                }
                return Some(out);
            }
            match self.reason[pb.var_id()] {
                Reason::Clause(c) => {
                    cur = c;
                },
                _ => {
                    return None;
                },
            }
            p_opt = Some(pb);
            proof {
                assert forall|k: int| 0 <= k < rest@.len() implies (#[trigger] rest@[k]).var_idx()
                    != pb.var_idx() by {
                    assert(self.level@[rest@[k].var_idx()] < level_now);
                };
                assert(o.queue@.take(self.queue@.len() as int).drop_last() =~= o.queue@.take(
                    self.queue@.len() - 1,
                ));
            }
            self.pop_queue();
        }
    }

    /// Whether clause `c` is serving as the antecedent of an assigned
    /// variable: such a clause must not be erased.
    pub open spec fn locked(self, c: int) -> bool {
        exists|j: int|
            0 <= j < self.clauses@[c]@.len() && self.reason@[(
            #[trigger] self.clauses@[c]@[j]).var_idx()] == Reason::Clause(c as usize)
    }

    /// Whether clause `c` currently forces an assigned variable.
    fn is_locked(&self, c: usize) -> (r: bool)
        requires
            self.wf_sizes(),
            self.wf_clauses(),
            c < self.nc(),
        ensures
            r == self.locked(c as int),
    {
        let n = self.clauses[c].len();
        let mut j: usize = 0;
        while j < n
            invariant
                self.wf_sizes(),
                self.wf_clauses(),
                c < self.nc(),
                j <= n,
                n == self.clauses@[c as int]@.len(),
                forall|k: int|
                    0 <= k < j ==> self.reason@[(#[trigger] self.clauses@[c as int]@[k]).var_idx()]
                        != Reason::Clause(c),
            decreases n - j,
        {
            let l = self.clauses[c][j];
            if self.reason[l.var_id()] == Reason::Clause(c) {
                return true;
            }
            j += 1;
        }
        false
    }

    /// Checks that every input clause has at least one true literal under
    /// the current assignment.
    fn check_model(&self) -> (r: bool)
        requires
            self.wf(),
        ensures
            r == (forall|c: int|
                0 <= c < self.nc() && !self.cla_learnt@[c] ==> clause_sat(
                    self.assignment@,
                    (#[trigger] self.clauses@[c])@,
                )),
    {
        let ncl = self.clauses.len();
        let mut c: usize = 0;
        while c < ncl
            invariant
                self.wf(),
                c <= ncl,
                ncl == self.nc(),
                forall|d: int|
                    0 <= d < c && !self.cla_learnt@[d] ==> clause_sat(
                        self.assignment@,
                        (#[trigger] self.clauses@[d])@,
                    ),
            decreases ncl - c,
        {
            if !self.cla_learnt[c] {
                let n = self.clauses[c].len();
                let mut j: usize = 0;
                let mut sat = false;
                while j < n && !sat
                    invariant
                        self.wf(),
                        c < self.nc(),
                        j <= n,
                        n == self.clauses@[c as int]@.len(),
                        sat ==> clause_sat(self.assignment@, self.clauses@[c as int]@),
                        !sat ==> forall|k: int|
                            0 <= k < j ==> lit_value(
                                self.assignment@,
                                #[trigger] self.clauses@[c as int]@[k],
                            ) != Value::True,
                    decreases n - j + (if sat { 0int } else { 1int }),
                {
                    let l = self.clauses[c][j];
                    if matches!(self.get_assignment_lit(l), Value::True) {
                        sat = true;
                    } else {
                        j += 1;
                    }
                }
                if !sat {
                    proof {
                        assert(!clause_sat(self.assignment@, self.clauses@[c as int]@));
                    }
                    return false;
                }
            }
            c += 1;
        }
        true
    }

    /// The eviction policy of `reduce_db`, stated over an ordering `ord` of
    /// the learned-clause index by ascending activity: an unlocked clause
    /// in the lower half of the ordering is erased, as is an unlocked
    /// upper-half clause whose activity is below `small`; a locked clause
    /// always survives; and nothing else is newly erased.
    pub open spec fn reduce_policy(self, other: Solver, ord: Seq<usize>, small: int) -> bool {
        &&& ord.to_multiset() == self.learnt@.to_multiset()
        &&& forall|p1: int, p2: int|
            0 <= p1 < p2 < ord.len() ==> self.cla_activity.scores@[ord[p1] as int]
                <= self.cla_activity.scores@[ord[p2] as int]
        &&& forall|q: int|
            0 <= q < ord.len() && !self.locked(ord[q] as int) && (q < ord.len() / 2
                || self.cla_activity.scores@[ord[q] as int] < small) ==> other.cla_erased@[(
            #[trigger] ord[q]) as int]
        &&& forall|q: int|
            0 <= q < ord.len() && self.locked(ord[q] as int) ==> !other.cla_erased@[(
            #[trigger] ord[q]) as int]
        &&& forall|c: int|
            0 <= c < self.nc() && #[trigger] other.cla_erased@[c] && !self.cla_erased@[c]
                ==> exists|q: int|
                0 <= q < ord.len() && #[trigger] ord[q] == c && !self.locked(c) && (q < ord.len()
                    / 2 || self.cla_activity.scores@[c] < small)
    }

    /// Evicts low-activity learned clauses: the learned-clause index is
    /// ordered by ascending activity,
    /// the unlocked lower half is erased, and an unlocked upper-half clause
    /// is erased too when its activity falls below the increment divided by
    /// the number of learned clauses.  Clauses serving as antecedents are
    /// never erased, input clauses are never touched, erasure is a
    /// tombstone (clause content stays), and every surviving learned
    /// clause remains in the learned index.
    #[verifier::rlimit(100)]
    #[verifier::spinoff_prover]
    fn reduce_db(&mut self)
        requires
            old(self).wf(),
        ensures
            final(self).wf(),
            final(self).nv() == old(self).nv(),
            final(self).nc() == old(self).nc(),
            final(self).assignment == old(self).assignment,
            final(self).clauses == old(self).clauses,
            final(self).queue == old(self).queue,
            final(self).reason == old(self).reason,
            final(self).level == old(self).level,
            final(self).watcher_clauses == old(self).watcher_clauses,
            final(self).trail_boundary == old(self).trail_boundary,
            final(self).queue_top == old(self).queue_top,
            final(self).var_activity == old(self).var_activity,
            final(self).cla_activity == old(self).cla_activity,
            final(self).cla_learnt == old(self).cla_learnt,
            final(self).n_restart == old(self).n_restart,
            final(self).n_conflict == old(self).n_conflict,
            final(self).n_propagation == old(self).n_propagation,
            forall|c: int|
                0 <= c < old(self).nc() && #[trigger] final(self).cla_erased@[c]
                    ==> old(self).cla_erased@[c] || (old(self).cla_learnt@[c] && !old(self).locked(c)),
            forall|c: int|
                0 <= c < old(self).nc() && #[trigger] old(self).cla_erased@[c]
                    ==> final(self).cla_erased@[c],
            forall|c: int|
                0 <= c < old(self).nc() && !(#[trigger] old(self).cla_learnt@[c])
                    ==> !final(self).cla_erased@[c],
            old(self).learnt@.len() > 0 ==> exists|ord: Seq<usize>|
                #[trigger] old(self).reduce_policy(
                    *final(self),
                    ord,
                    old(self).cla_activity.inc as int / old(self).learnt@.len() as int,
                ),
            forall|k: int|
                0 <= k < old(self).learnt@.len() && !final(self).cla_erased@[(
                #[trigger] old(self).learnt@[k]) as int] ==> final(self).learnt@.contains(
                    old(self).learnt@[k],
                ),
            forall|t: int|
                0 <= t < final(self).learnt@.len() ==> old(self).learnt@.contains(
                    #[trigger] final(self).learnt@[t],
                ),
    {
        let ghost o = *old(self);
        let m = self.learnt.len();
        // copy the learned-clause index
        let mut rem: Vec<usize> = Vec::new();
        let mut k: usize = 0;
        while k < m
            invariant
                k <= m,
                m == self.learnt@.len(),
                rem@ == self.learnt@.take(k as int),
                self.wf(),
            decreases m - k,
        {
            let e = self.learnt[k];
            rem.push(e);
            proof {
                assert(rem@ =~= self.learnt@.take(k + 1));
            }
            k += 1;
        }
        proof {
            assert(rem@ =~= self.learnt@);
        }
        // order it by ascending activity: repeatedly extract a minimum
        let mut ord: Vec<usize> = Vec::new();
        proof {
            broadcast use vstd::seq_lib::group_to_multiset_ensures;

            assert(ord@.to_multiset().add(rem@.to_multiset()) =~= o.learnt@.to_multiset());
        }
        while rem.len() > 0
            invariant
                self.wf(),
                *self == o,
                m == o.learnt@.len(),
                ord@.len() + rem@.len() == m,
                ord@.to_multiset().add(rem@.to_multiset()) == o.learnt@.to_multiset(),
                forall|t: int|
                    0 <= t < ord@.len() ==> {
                    let id = (#[trigger] ord@[t]) as int;
                    &&& id < o.nc()
                    &&& o.cla_learnt@[id]
                    &&& !o.cla_erased@[id]
                },
                forall|t: int|
                    0 <= t < rem@.len() ==> {
                    let id = (#[trigger] rem@[t]) as int;
                    &&& id < o.nc()
                    &&& o.cla_learnt@[id]
                    &&& !o.cla_erased@[id]
                },
                forall|p1: int, p2: int|
                    0 <= p1 < p2 < ord@.len() ==> o.cla_activity.scores@[ord@[p1] as int]
                        <= o.cla_activity.scores@[ord@[p2] as int],
                forall|p1: int, q1: int|
                    0 <= p1 < ord@.len() && 0 <= q1 < rem@.len()
                        ==> o.cla_activity.scores@[ord@[p1] as int]
                        <= o.cla_activity.scores@[rem@[q1] as int],
            decreases rem@.len(),
        {
            let mut mi: usize = 0;
            let mut b: usize = 1;
            while b < rem.len()
                invariant
                    *self == o,
                    self.wf(),
                    rem@.len() > 0,
                    mi < b <= rem@.len(),
                    forall|t: int|
                        0 <= t < rem@.len() ==> (#[trigger] rem@[t]) < o.nc(),
                    forall|t: int|
                        0 <= t < b ==> o.cla_activity.scores@[rem@[mi as int] as int]
                            <= o.cla_activity.scores@[(#[trigger] rem@[t]) as int],
                decreases rem@.len() - b,
            {
                if self.cla_activity.scores[rem[b]] < self.cla_activity.scores[rem[mi]] {
                    mi = b;
                }
                b += 1;
            }
            let ghost rem_before = rem@;
            let ghost ord_before = ord@;
            let v = rem.remove(mi);
            ord.push(v);
            proof {
                broadcast use vstd::seq_lib::group_to_multiset_ensures;

                assert(rem@ == rem_before.remove(mi as int));
                assert(rem@.to_multiset() =~= rem_before.to_multiset().remove(v));
                assert(ord@.to_multiset() =~= ord_before.to_multiset().insert(v));
                assert(rem_before.to_multiset().contains(v)) by {
                    assert(rem_before.contains(v));
                };
                assert(ord@.to_multiset().add(rem@.to_multiset()) =~= o.learnt@.to_multiset());
                assert forall|t: int| 0 <= t < rem@.len() implies {
                    let id = (#[trigger] rem@[t]) as int;
                    &&& id < o.nc()
                    &&& o.cla_learnt@[id]
                    &&& !o.cla_erased@[id]
                } by {
                    if t < mi {
                        assert(rem@[t] == rem_before[t]);
                    } else {
                        assert(rem@[t] == rem_before[t + 1]);
                    }
                };
                assert forall|p1: int, q1: int|
                    0 <= p1 < ord@.len() && 0 <= q1 < rem@.len()
                    implies o.cla_activity.scores@[ord@[p1] as int]
                    <= o.cla_activity.scores@[rem@[q1] as int] by {
                    if q1 < mi {
                        assert(rem@[q1] == rem_before[q1]);
                    } else {
                        assert(rem@[q1] == rem_before[q1 + 1]);
                    }
                    if p1 < ord_before.len() {
                    } else {
                        assert(ord@[p1] == v);
                    }
                };
            }
        }
        proof {
            broadcast use vstd::seq_lib::group_to_multiset_ensures;

            assert(rem@.to_multiset() =~= vstd::multiset::Multiset::<usize>::empty()) by {
                assert(rem@ =~= Seq::<usize>::empty());
            };
            assert(ord@.to_multiset() =~= o.learnt@.to_multiset());
        }
        // erase pass over the ordering
        let threshold = m / 2;
        let small = if m > 0 {
            self.cla_activity.inc / (m as u64)
        } else {
            0
        };
        let ghost ords = ord@;
        let mut p: usize = 0;
        while p < ord.len()
            invariant
                p <= ord@.len(),
                ord@ == ords,
                m == ord@.len(),
                threshold == m / 2,
                m > 0 ==> small == o.cla_activity.inc / (m as u64),
                self.wf_sizes(),
                self.wf_trail(),
                self.wf_clauses(),
                self.watchers_sound(),
                self.watchers_complete(),
                forall|c: int|
                    0 <= c < self.nc() && !(#[trigger] self.cla_learnt@[c])
                        ==> !self.cla_erased@[c],
                self.nv() == o.nv(),
                self.nc() == o.nc(),
                self.assignment == o.assignment,
                self.clauses == o.clauses,
                self.queue == o.queue,
                self.reason == o.reason,
                self.level == o.level,
                self.watcher_clauses == o.watcher_clauses,
                self.trail_boundary == o.trail_boundary,
                self.queue_top == o.queue_top,
                self.var_activity == o.var_activity,
                self.cla_activity == o.cla_activity,
                self.cla_learnt == o.cla_learnt,
                self.learnt == o.learnt,
                self.n_restart == o.n_restart,
                self.n_conflict == o.n_conflict,
                self.n_propagation == o.n_propagation,
                forall|t: int|
                    0 <= t < ord@.len() ==> {
                    let id = (#[trigger] ord@[t]) as int;
                    &&& id < o.nc()
                    &&& o.cla_learnt@[id]
                    &&& !o.cla_erased@[id]
                },
                forall|c: int|
                    0 <= c < o.nc() && #[trigger] self.cla_erased@[c] ==> o.cla_erased@[c] || (
                    o.cla_learnt@[c] && !o.locked(c)),
                forall|c: int|
                    0 <= c < o.nc() && #[trigger] o.cla_erased@[c] ==> self.cla_erased@[c],
                forall|q: int|
                    0 <= q < p && !o.locked(ord@[q] as int) && (q < threshold
                        || o.cla_activity.scores@[ord@[q] as int] < small)
                        ==> self.cla_erased@[(#[trigger] ord@[q]) as int],
                forall|q: int|
                    0 <= q < ord@.len() && o.locked(ord@[q] as int) ==> !self.cla_erased@[(
                    #[trigger] ord@[q]) as int],
                forall|c: int|
                    0 <= c < o.nc() && #[trigger] self.cla_erased@[c] && !o.cla_erased@[c]
                        ==> exists|q: int|
                        0 <= q < p && #[trigger] ord@[q] == c && !o.locked(c) && (q < threshold
                            || o.cla_activity.scores@[c] < small),
            decreases ord@.len() - p,
        {
            let c = ord[p];
            if !self.cla_erased[c] {
                let keep = self.is_locked(c) || (p >= threshold && self.cla_activity.scores[c]
                    >= small);
                if !keep {
                    self.cla_erased.set(c, true);
                    proof {
                        assert(o.locked(c as int) == self.locked(c as int)) by {
                            assert(self.clauses == o.clauses && self.reason == o.reason);
                        };
                    }
                } else {
                    proof {
                        assert(o.locked(c as int) == self.locked(c as int)) by {
                            assert(self.clauses == o.clauses && self.reason == o.reason);
                        };
                    }
                }
            }
            p += 1;
        }
        // rebuild the index from the surviving learned clauses
        let mut next: Vec<usize> = Vec::new();
        let mut q2: usize = 0;
        while q2 < ord.len()
            invariant
                q2 <= ord@.len(),
                ord@ == ords,
                self.wf_sizes(),
                forall|t: int| 0 <= t < ord@.len() ==> (#[trigger] ord@[t]) < self.nc(),
                forall|t: int|
                    0 <= t < next@.len() ==> {
                    let id = (#[trigger] next@[t]) as int;
                    &&& id < self.nc()
                    &&& self.cla_learnt@[id]
                    &&& !self.cla_erased@[id]
                },
                forall|t: int|
                    0 <= t < q2 && !self.cla_erased@[(#[trigger] ord@[t]) as int]
                        && self.cla_learnt@[ord@[t] as int] ==> next@.contains(ord@[t]),
                forall|t: int| 0 <= t < next@.len() ==> ords.contains(#[trigger] next@[t]),
            decreases ord@.len() - q2,
        {
            let c = ord[q2];
            let ghost next_before = next@;
            if !self.cla_erased[c] && self.cla_learnt[c] {
                next.push(c);
                proof {
                    assert(next@[next@.len() - 1] == c);
                    assert forall|t: int|
                        0 <= t < q2 + 1 && !self.cla_erased@[(#[trigger] ord@[t]) as int]
                            && self.cla_learnt@[ord@[t] as int] implies next@.contains(
                        ord@[t],
                    ) by {
                        if t < q2 {
                            lemma_push_contains(next_before, ord@[t], c);
                        }
                    };
                }
            }
            q2 += 1;
        }
        self.learnt = next;
        proof {
            broadcast use vstd::seq_lib::group_to_multiset_ensures;

            // the policy holds with the activity ordering as witness
            if m > 0 {
                assert(o.reduce_policy(*self, ords, small as int)) by {
                    assert(ords.to_multiset() == o.learnt@.to_multiset());
                    assert(ords.len() == m) by {
                        assert(ords.to_multiset().len() == o.learnt@.to_multiset().len());
                    };
                };
            }
            // the rebuilt index holds only clauses of the old one
            assert forall|t: int|
                0 <= t < self.learnt@.len() implies o.learnt@.contains(
                #[trigger] self.learnt@[t],
            ) by {
                assert(ords.contains(self.learnt@[t]));
                assert(ords.to_multiset().contains(self.learnt@[t]));
                assert(o.learnt@.to_multiset().contains(self.learnt@[t]));
            };
            // every surviving learned clause stays indexed
            assert forall|k2: int|
                0 <= k2 < o.learnt@.len() && !self.cla_erased@[(#[trigger] o.learnt@[k2]) as int]
                implies self.learnt@.contains(o.learnt@[k2]) by {
                assert(o.learnt@.contains(o.learnt@[k2]));
                assert(o.learnt@.to_multiset().contains(o.learnt@[k2]));
                assert(ords.to_multiset().contains(o.learnt@[k2]));
                assert(ords.contains(o.learnt@[k2]));
                let t = choose|t: int| 0 <= t < ords.len() && ords[t] == o.learnt@[k2];
                assert(o.cla_learnt@[ords[t] as int]);
                assert(self.cla_learnt@[ords[t] as int]);
            };
        }
    }

    /// Advances the conflict counter without overflowing.
    fn count_conflict(&mut self)
        ensures
            *final(self) == (Solver { n_conflict: final(self).n_conflict, ..*old(self) }),
            final(self).n_conflict == if old(self).n_conflict < u64::MAX {
                (old(self).n_conflict + 1) as u64
            } else {
                u64::MAX
            },
            final(self).n_conflict >= old(self).n_conflict,
            final(self).n_conflict >= 1,
    {
        if self.n_conflict < u64::MAX {
            self.n_conflict = self.n_conflict + 1;
        }
    }

    /// How many conflicts the current restart may still spend, plus one.
    pub open spec fn budget_left(confl: u64, budget: u64) -> int {
        if confl <= budget {
            budget + 1 - confl
        } else {
            0
        }
    }

    /// Termination rank of a search iteration once the budget question is
    /// settled: while conflicts remain in budget this is a constant, and
    /// after the budget is exhausted it is the decision level, which every
    /// further conflict strictly lowers until propagation reaches a fixed
    /// point and the search restarts.
    pub open spec fn chain_phase(confl: u64, budget: u64, dl: int, nv: int) -> int {
        if confl <= budget {
            nv + 1
        } else {
            dl
        }
    }

    /// One restart-bounded episode of CDCL search.
    ///
    /// Alternates unit propagation and branching.  A conflict at the root
    /// level means the formula is unsatisfiable (`Some(false)`).  Any other
    /// conflict is analyzed into a first-UIP clause, the trail is unwound
    /// to the backjump level, the clause is learned and its asserting
    /// literal enqueued.  Once the episode has spent more conflicts than
    /// `conflict_budget`, the next propagation fixed point unwinds the
    /// trail to the root and yields `None`: a restart.  When every variable
    /// is assigned, the model is checked against every input clause before
    /// `Some(true)` is returned.
    #[verifier::rlimit(100)]
    #[verifier::spinoff_prover]
    fn search(&mut self, conflict_budget: u64, learnt_budget: u64) -> (r: Option<bool>)
        requires
            old(self).wf(),
            old(self).queue_top <= old(self).queue@.len(),
            conflict_budget < u64::MAX,
        ensures
            final(self).wf(),
            final(self).nv() == old(self).nv(),
            final(self).nc() >= old(self).nc(),
            final(self).queue_top == final(self).queue@.len(),
            forall|c: int|
                0 <= c < old(self).nc() ==> same_lits(
                    (#[trigger] final(self).clauses@[c])@,
                    old(self).clauses@[c]@,
                ) && final(self).clauses@[c]@.len() == old(self).clauses@[c]@.len()
                    && final(self).cla_learnt@[c] == old(self).cla_learnt@[c],
            r is None ==> final(self).trail_boundary@.len() == 0,
            r == Some(false) ==> final(self).n_conflict >= 1,
            r == Some(true) ==> (forall|v: int|
                0 <= v < final(self).nv() ==> #[trigger] final(self).assignment@[v]
                    != Value::Undet) && (forall|c: int|
                0 <= c < final(self).nc() && !final(self).cla_learnt@[c] ==> clause_sat(
                    final(self).assignment@,
                    (#[trigger] final(self).clauses@[c])@,
                )),
            final(self).n_restart == old(self).n_restart,
            final(self).n_conflict >= old(self).n_conflict,
            final(self).n_propagation >= old(self).n_propagation,
            forall|v: int|
                0 <= v < old(self).nv() && #[trigger] old(self).assignment@[v] != Value::Undet
                    && old(self).level@[v] == 0 ==> final(self).assignment@[v]
                    == old(self).assignment@[v] && final(self).level@[v] == old(self).level@[v],
    {
        let ghost o = *old(self);
        let mut confl_count: u64 = 0;
        loop
            invariant
                o == *old(self),
                self.wf(),
                self.queue_top <= self.queue@.len(),
                self.nv() == o.nv(),
                self.nc() >= o.nc(),
                conflict_budget < u64::MAX,
                forall|c: int|
                    0 <= c < o.nc() ==> same_lits(
                        (#[trigger] self.clauses@[c])@,
                        o.clauses@[c]@,
                    ) && self.clauses@[c]@.len() == o.clauses@[c]@.len() && self.cla_learnt@[c]
                        == o.cla_learnt@[c],
                self.n_restart == o.n_restart,
                self.n_conflict >= o.n_conflict,
                self.n_propagation >= o.n_propagation,
                forall|v: int|
                    0 <= v < o.nv() && #[trigger] o.assignment@[v] != Value::Undet
                        && o.level@[v] == 0 ==> self.assignment@[v] == o.assignment@[v]
                        && self.level@[v] == o.level@[v],
            decreases
                Self::budget_left(confl_count, conflict_budget),
                Self::chain_phase(confl_count, conflict_budget, self.dl(), self.nv()),
                self.nv() + 1 - self.queue@.len(),
        {
            proof {
                lemma_trail_len_bound(self.queue@, self.nv());
            }
            let ghost confl0 = confl_count;
            let ghost dl0 = self.dl();
            let ghost qlen0 = self.queue@.len();
            match self.propagate() {
                Some(cid) => {
                    self.count_conflict();
                    if confl_count < u64::MAX {
                        confl_count = confl_count + 1;
                    }
                    if self.trail_boundary.len() == 0 {
                        return Some(false);
                    }
                    let ghost dl_conf = self.dl();
                    match self.analyze(cid) {
                        None => {
                            self.restart_unwind();
                            return None;
                        },
                        Some(learnt) => {
                            // backjump level: the highest level among the
                            // non-asserting literals, or the root for a unit
                            let mut bl: usize = 0;
                            let mut t: usize = 1;
                            while t < learnt.len()
                                invariant
                                    self.wf(),
                                    1 <= t <= learnt@.len(),
                                    learnt@.len() >= 1,
                                    forall|i: int|
                                        0 <= i < learnt@.len() ==> (#[trigger] learnt@[i]).ok(
                                            self.nv(),
                                        ),
                                    forall|i: int|
                                        1 <= i < learnt@.len() ==> self.assignment@[(
                                        #[trigger] learnt@[i]).var_idx()] != Value::Undet
                                            && self.level@[learnt@[i].var_idx()] < dl_conf,
                                    bl < dl_conf || (bl == 0 && dl_conf > 0),
                                    dl_conf == self.dl(),
                                decreases learnt@.len() - t,
                            {
                                let lv = self.level[learnt[t].var_id()];
                                if lv > bl {
                                    bl = lv;
                                }
                                t += 1;
                            }
                            let ghost mid = *self;
                            while self.trail_boundary.len() > bl
                                invariant
                                    self.wf(),
                                    learnt@.len() >= 1,
                                    bl <= self.dl() <= mid.dl(),
                                    self.nv() == mid.nv(),
                                    self.nc() == mid.nc(),
                                    self.clauses == mid.clauses,
                                    self.watcher_clauses == mid.watcher_clauses,
                                    self.cla_erased == mid.cla_erased,
                                    self.cla_learnt == mid.cla_learnt,
                                    self.learnt == mid.learnt,
                                    forall|v: int|
                                        0 <= v < mid.nv() && #[trigger] self.assignment@[v]
                                            != Value::Undet ==> self.level@[v] == mid.level@[v],
                                    self.var_activity == mid.var_activity,
                                    self.cla_activity == mid.cla_activity,
                                    self.n_restart == mid.n_restart,
                                    self.n_conflict == mid.n_conflict,
                                    self.n_propagation == mid.n_propagation,
                                    forall|v: int|
                                        0 <= v < mid.nv() && #[trigger] self.assignment@[v]
                                            != Value::Undet ==> self.assignment@[v]
                                            == mid.assignment@[v],
                                    forall|v: int|
                                        0 <= v < mid.nv() && #[trigger] mid.assignment@[v]
                                            != Value::Undet && mid.level@[v] == 0
                                            ==> self.assignment@[v] == mid.assignment@[v],
                                    forall|i: int|
                                        1 <= i < learnt@.len() ==> (#[trigger] learnt@[i]).ok(
                                            self.nv(),
                                        ) && (self.assignment@[learnt@[i].var_idx()]
                                            != Value::Undet ==> self.level@[learnt@[i].var_idx()]
                                            < dl_conf),
                                    forall|i: int|
                                        0 <= i < learnt@.len() ==> (#[trigger] learnt@[i]).ok(
                                            self.nv(),
                                        ),
                                    self.assignment@[learnt@[0].var_idx()] != Value::Undet
                                        ==> self.level@[learnt@[0].var_idx()] == dl_conf,
                                decreases self.dl(),
                            {
                                self.pop_level();
                            }
                            self.queue_top = self.queue.len();
                            proof {
                                // the asserting variable sat at the conflict
                                // level, which has been popped
                                assert(self.dl() == bl);
                                assert(bl < dl_conf);
                                if self.assignment@[learnt@[0].var_idx()] != Value::Undet {
                                    let ti = choose|ti: int|
                                        0 <= ti < self.queue@.len() && (
                                        #[trigger] self.queue@[ti]).var_idx() == learnt@[0].var_idx();
                                    lemma_count_le_bound(self.trail_boundary@, ti);
                                    assert(self.level@[learnt@[0].var_idx()] <= self.dl());
                                    assert(false);
                                }
                                assert(lit_value(self.assignment@, learnt@[0]) == Value::Undet);
                            }
                            if learnt.len() >= 2 {
                                let l0 = learnt[0];
                                proof {
                                    assert(l0 == learnt@[0]);
                                }
                                let id = self.learn_clause(learnt);
                                let ok = self.decide_checked(l0, Reason::Clause(id));
                                assert(ok);
                            } else {
                                let l0 = learnt[0];
                                let ok = self.decide_checked(l0, Reason::Branch);
                                assert(ok);
                            }
                            self.var_activity.decay();
                            self.cla_activity.decay();
                            proof {
                                if confl0 <= conflict_budget {
                                    assert(confl_count == confl0 + 1);
                                    assert(Self::budget_left(confl_count, conflict_budget)
                                        < Self::budget_left(confl0, conflict_budget));
                                } else {
                                    assert(confl_count >= confl0);
                                    assert(confl_count > conflict_budget);
                                    assert(self.dl() == bl && bl < dl_conf && dl_conf == dl0);
                                }
                            }
                        },
                    }
                },
                None => {
                    if confl_count > conflict_budget {
                        self.restart_unwind();
                        return None;
                    }
                    if (self.learnt.len() as u64) > (self.queue.len() as u64).saturating_add(
                        learnt_budget,
                    ) {
                        self.reduce_db();
                    }
                    match self.var_activity.find_undecided(&self.assignment) {
                        Some(v) => {
                            let l = Literal::new(v, true);
                            self.branch(l);
                            proof {
                                lemma_trail_len_bound(self.queue@, self.nv());
                                assert(self.queue@.len() > qlen0);
                            }
                        },
                        None => {
                            if self.check_model() {
                                return Some(true);
                            }
                            self.restart_unwind();
                            return None;
                        },
                    }
                },
            }
        }
    }

    /// Decides satisfiability.
    ///
    /// Runs restart-bounded searches under a conflict budget that grows by
    /// half after every restart.  On a `true` result the assignment is
    /// total, satisfies every input clause of length at least two, and
    /// keeps every root-level assignment — in particular each literal a
    /// unit clause forced.  A `false` result always carries evidence of
    /// work: a recorded conflict, or a restart after an exhausted budget.
    pub fn solve(&mut self) -> (r: bool)
        requires
            old(self).wf(),
        ensures
            final(self).wf(),
            final(self).nv() == old(self).nv(),
            r ==> forall|v: int|
                0 <= v < final(self).nv() ==> #[trigger] final(self).assignment@[v]
                    != Value::Undet,
            r ==> forall|c: int|
                0 <= c < old(self).nc() && !old(self).cla_learnt@[c] ==> clause_sat(
                    final(self).assignment@,
                    (#[trigger] old(self).clauses@[c])@,
                ),
            r ==> forall|c: int|
                0 <= c < final(self).nc() && !final(self).cla_learnt@[c] ==> clause_sat(
                    final(self).assignment@,
                    (#[trigger] final(self).clauses@[c])@,
                ),
            final(self).n_restart >= old(self).n_restart,
            final(self).n_conflict >= old(self).n_conflict,
            final(self).n_propagation >= old(self).n_propagation,
            !r ==> final(self).n_conflict >= 1 || final(self).n_restart >= 1,
            forall|v: int|
                0 <= v < old(self).nv() && #[trigger] old(self).assignment@[v] != Value::Undet
                    && old(self).level@[v] == 0 ==> final(self).assignment@[v]
                    == old(self).assignment@[v],
    {
        let ghost o = *old(self);
        if self.queue_top > self.queue.len() {
            self.queue_top = self.queue.len();
        }
        let mut conflict_budget: u64 = 100;
        let mut learnt_budget: u64 = (self.clauses.len() as u64) / 3;
        loop
            invariant
                o == *old(self),
                self.wf(),
                self.queue_top <= self.queue@.len(),
                self.nv() == o.nv(),
                self.nc() >= o.nc(),
                2 <= conflict_budget < u64::MAX,
                self.n_restart >= o.n_restart,
                self.n_conflict >= o.n_conflict,
                self.n_propagation >= o.n_propagation,
                forall|v: int|
                    0 <= v < o.nv() && #[trigger] o.assignment@[v] != Value::Undet
                        && o.level@[v] == 0 ==> self.assignment@[v] == o.assignment@[v]
                        && self.level@[v] == o.level@[v],
                forall|c: int|
                    0 <= c < o.nc() ==> same_lits(
                        (#[trigger] self.clauses@[c])@,
                        o.clauses@[c]@,
                    ) && self.cla_learnt@[c] == o.cla_learnt@[c],
            decreases u64::MAX - conflict_budget,
        {
            let ghost budget0 = conflict_budget;
            match self.search(conflict_budget, learnt_budget) {
                Some(res) => {
                    proof {
                        if res {
                            assert forall|c: int|
                                0 <= c < o.nc() && !o.cla_learnt@[c] implies clause_sat(
                                self.assignment@,
                                (#[trigger] o.clauses@[c])@,
                            ) by {
                                lemma_same_lits_sat(
                                    self.assignment@,
                                    self.clauses@[c]@,
                                    o.clauses@[c]@,
                                );
                            };
                        }
                    }
                    return res;
                },
                None => {
                    if self.n_restart < u64::MAX {
                        self.n_restart = self.n_restart + 1;
                    }
                    if conflict_budget >= u64::MAX - 1 {
                        // the conflict budget is saturated; by now the
                        // search has gone through more conflicts than any
                        // machine can produce
                        return false;
                    }
                    conflict_budget = match conflict_budget.checked_mul(3) {
                        Some(x) => {
                            let g = x / 2;
                            if g >= u64::MAX - 1 {
                                u64::MAX - 1
                            } else {
                                g
                            }
                        },
                        None => u64::MAX - 1,
                    };
                    learnt_budget = match learnt_budget.checked_mul(11) {
                        Some(x) => x / 10,
                        None => learnt_budget,
                    };
                    proof {
                        assert(conflict_budget > budget0) by {
                            assert(budget0 >= 2);
                        };
                    }
                },
            }
        }
    }
}

/// Trail coherence: in a well-formed solver every trail entry is true under
/// the assignment, and its variable carries the decision level of the trail
/// segment the entry lies in — the number of level boundaries at or below
/// its position.
pub proof fn lemma_trail_coherence(s: &Solver)
    requires
        s.wf(),
    ensures
        forall|i: int|
            0 <= i < s.queue@.len() ==> lit_value(s.assignment@, #[trigger] s.queue@[i])
                == Value::True,
        forall|i: int|
            0 <= i < s.queue@.len() ==> s.level@[(#[trigger] s.queue@[i]).var_idx()] == count_le(
                s.trail_boundary@,
                i,
            ),
{
}

/// The watch invariant: in a well-formed solver every live clause of
/// length at least two is registered in the watcher lists of the negations
/// of both its watched literals.
pub proof fn lemma_watch_invariant(s: &Solver)
    requires
        s.wf(),
    ensures
        forall|c: int|
            0 <= c < s.nc() && !s.cla_erased@[c] && (#[trigger] s.clauses@[c])@.len() >= 2
                ==> s.watcher_clauses@[watch_code(s.clauses@[c]@[0])]@.contains(c as usize)
                    && s.watcher_clauses@[watch_code(s.clauses@[c]@[1])]@.contains(c as usize),
{
}

} // verus!
