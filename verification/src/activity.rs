//! Exponentially decaying activity counters.
//!
//! The solver keeps one counter per variable (for branching) and one per
//! clause (for deletion).  Instead of growing each score on every event, a
//! global increment `inc` grows geometrically by `num / den` at every decay;
//! bumping an entry adds the current increment.  Scores are fixed-point
//! integers; when an entry would exceed a fixed ceiling, every score and the
//! increment are divided by a common power of two, which keeps the relative
//! order of any two entries.

use vstd::prelude::*;

verus! {

/// An entry is rescaled once it exceeds this ceiling.
pub const SCORE_CEILING: u64 = 0x1000000000000000;

/// The increment is rescaled before a decay would carry it past this bound.
pub const INC_CEILING: u64 = 0x4000000000000;

/// Rescaling divides every score and the increment by this power of two.
pub const RESCALE_DIV: u64 = 0x100000000;

/// A set of activity scores with a shared, geometrically growing increment.
pub struct Activity {
    /// One nonnegative score per entry.
    pub scores: Vec<u64>,
    /// Amount added to an entry by `bump`.
    pub inc: u64,
    /// Numerator of the growth ratio applied to `inc` by `decay`.
    pub num: u64,
    /// Denominator of the growth ratio applied to `inc` by `decay`.
    pub den: u64,
}

/// The scores after a rescale: every entry divided by `RESCALE_DIV`.
pub open spec fn rescaled_scores(s: Seq<u64>) -> Seq<u64> {
    s.map_values(|x: u64| (x / RESCALE_DIV) as u64)
}

impl Activity {
    /// Bounds that every operation preserves: the increment stays positive
    /// and small enough that a bump and a decay cannot overflow, the growth
    /// ratio lies in (1, 2], and every score stays below twice the ceiling.
    pub open spec fn wf(self) -> bool {
        &&& 1 <= self.inc <= 0x8000000000000
        &&& 1 <= self.den < self.num <= 2 * self.den
        &&& self.num <= 1024
        &&& forall|i: int| 0 <= i < self.scores@.len() ==> #[trigger] self.scores@[i] <= 0x2000000000000000
    }

    /// A fresh counter with no entries, growing by `num / den` per decay.
    /// The increment starts well above one so that the growth ratio
    /// survives integer division.
    pub fn new(num: u64, den: u64) -> (r: Activity)
        requires
            1 <= den < num <= 2 * den,
            num <= 1024,
        ensures
            r.wf(),
            r.scores@.len() == 0,
            r.inc == 1024,
            r.num == num,
            r.den == den,
    {
        Activity { scores: Vec::new(), inc: 1024, num, den }
    }

    /// Adds one entry with score zero.
    pub fn add_entry(&mut self)
        requires
            old(self).wf(),
        ensures
            final(self).wf(),
            final(self).scores@ == old(self).scores@.push(0u64),
            final(self).inc == old(self).inc,
            final(self).num == old(self).num,
            final(self).den == old(self).den,
    {
        self.scores.push(0);
    }

    /// Divides every score and the increment by `RESCALE_DIV`, keeping the
    /// increment positive.
    fn rescale(&mut self)
        requires
            1 <= old(self).inc <= 0x8000000000000,
            1 <= old(self).den < old(self).num <= 2 * old(self).den,
            old(self).num <= 1024,
            forall|i: int|
                0 <= i < old(self).scores@.len() ==> #[trigger] old(self).scores@[i]
                    <= 0x4000000000000000,
        ensures
            final(self).wf(),
            final(self).scores@ == rescaled_scores(old(self).scores@),
            final(self).inc == if old(self).inc / RESCALE_DIV >= 1024 {
                (old(self).inc / RESCALE_DIV) as u64
            } else {
                1024u64
            },
            final(self).inc <= 0x80000,
            final(self).num == old(self).num,
            final(self).den == old(self).den,
    {
        let n = self.scores.len();
        let mut i: usize = 0;
        while i < n
            invariant
                n == self.scores@.len(),
                n == old(self).scores@.len(),
                i <= n,
                forall|j: int| 0 <= j < i ==> self.scores@[j] == rescaled_scores(old(self).scores@)[j],
                forall|j: int| i <= j < n ==> self.scores@[j] == old(self).scores@[j],
                self.inc == old(self).inc,
                self.num == old(self).num,
                self.den == old(self).den,
            decreases n - i,
        {
            let s = self.scores[i];
            self.scores.set(i, s / RESCALE_DIV);
            i += 1;
        }
        let d = self.inc / RESCALE_DIV;
        if d >= 1024 {
            self.inc = d;
        } else {
            self.inc = 1024;
        }
        assert(self.scores@ =~= rescaled_scores(old(self).scores@));
    }

    /// Adds the current increment to entry `i`.
    ///
    /// When no rescale is triggered the entry strictly increases and nothing
    /// else changes.  When the bumped entry exceeds the ceiling, every score
    /// is divided by the same constant, which preserves the relative
    /// (non-strict) order of any two entries.
    pub fn bump(&mut self, i: usize)
        requires
            old(self).wf(),
            i < old(self).scores@.len(),
        ensures
            final(self).wf(),
            final(self).scores@.len() == old(self).scores@.len(),
            final(self).num == old(self).num,
            final(self).den == old(self).den,
            old(self).scores@[i as int] + old(self).inc <= SCORE_CEILING ==> {
                &&& final(self).scores@ == old(self).scores@.update(
                    i as int,
                    (old(self).scores@[i as int] + old(self).inc) as u64,
                )
                &&& final(self).scores@[i as int] > old(self).scores@[i as int]
                &&& final(self).inc == old(self).inc
            },
            old(self).scores@[i as int] + old(self).inc > SCORE_CEILING ==> {
                &&& final(self).scores@ == rescaled_scores(
                    old(self).scores@.update(i as int, (old(self).scores@[i as int] + old(self).inc) as u64),
                )
                &&& final(self).inc == if old(self).inc / RESCALE_DIV >= 1024 {
                    (old(self).inc / RESCALE_DIV) as u64
                } else {
                    1024u64
                }
                &&& forall|j: int, k: int|
                    #![trigger final(self).scores@[j], final(self).scores@[k]]
                    {
                        let upd = old(self).scores@.update(
                            i as int,
                            (old(self).scores@[i as int] + old(self).inc) as u64,
                        );
                        0 <= j < upd.len() && 0 <= k < upd.len() && upd[j] <= upd[k]
                            ==> final(self).scores@[j] <= final(self).scores@[k]
                    }
            },
    {
        let s = self.scores[i];
        let bumped = s + self.inc;
        self.scores.set(i, bumped);
        if bumped > SCORE_CEILING {
            let ghost upd = self.scores@;
            self.rescale();
            assert forall|j: int, k: int|
                0 <= j < upd.len() && 0 <= k < upd.len() && upd[j] <= upd[k] implies self.scores@[j]
                <= self.scores@[k] by {
                vstd::arithmetic::div_mod::lemma_div_is_ordered(
                    upd[j] as int,
                    upd[k] as int,
                    RESCALE_DIV as int,
                );
            };
        }
    }

    /// Grows the increment by the ratio `num / den`, rescaling first when the
    /// increment is already large.  The increment never shrinks below its
    /// pre-decay rescaled value and stays positive.
    pub fn decay(&mut self)
        requires
            old(self).wf(),
        ensures
            final(self).wf(),
            final(self).scores@.len() == old(self).scores@.len(),
            final(self).num == old(self).num,
            final(self).den == old(self).den,
            old(self).inc <= INC_CEILING ==> {
                &&& final(self).scores@ == old(self).scores@
                &&& final(self).inc == (old(self).inc as int) * (old(self).num as int) / (old(self).den as int)
                &&& final(self).inc >= old(self).inc
            },
            old(self).inc > INC_CEILING ==> final(self).scores@ == rescaled_scores(old(self).scores@),
    {
        if self.inc > INC_CEILING {
            self.rescale();
        }
        let i0 = self.inc;
        assert(i0 <= INC_CEILING);
        assert((i0 as int) * (self.num as int) <= (i0 as int) * 1024) by (nonlinear_arith)
            requires self.num <= 1024, i0 >= 0;
        let grown = i0 * self.num;
        let next = grown / self.den;
        assert(next >= i0) by (nonlinear_arith)
            requires
                next == (i0 as int) * (self.num as int) / (self.den as int),
                self.den >= 1,
                self.num > self.den,
                i0 >= 0;
        assert(next <= 2 * i0) by (nonlinear_arith)
            requires
                next == (i0 as int) * (self.num as int) / (self.den as int),
                self.den >= 1,
                self.num <= 2 * self.den,
                i0 >= 0;
        self.inc = next;
    }

    /// The unassigned variable of maximum activity, ties broken by the lowest
    /// index; `None` exactly when every variable is assigned.
    pub fn find_undecided(&self, assignment: &Vec<crate::types::Value>) -> (r: Option<crate::types::Var>)
        requires
            assignment@.len() == self.scores@.len(),
        ensures
            r is None ==> forall|i: int|
                0 <= i < assignment@.len() ==> #[trigger] assignment@[i] != crate::types::Value::Undet,
            r matches Some(v) ==> {
                &&& v.0 < assignment@.len()
                &&& assignment@[v.0 as int] == crate::types::Value::Undet
                &&& forall|i: int|
                    0 <= i < assignment@.len() && #[trigger] assignment@[i] == crate::types::Value::Undet
                        ==> self.scores@[i] <= self.scores@[v.0 as int]
                            && (i < v.0 ==> self.scores@[i] < self.scores@[v.0 as int])
            },
    {
        let n = self.scores.len();
        let mut best: Option<usize> = None;
        let mut i: usize = 0;
        while i < n
            invariant
                n == self.scores@.len(),
                assignment@.len() == n,
                i <= n,
                best is None ==> forall|j: int|
                    0 <= j < i ==> #[trigger] assignment@[j] != crate::types::Value::Undet,
                best matches Some(b) ==> {
                    &&& b < i
                    &&& assignment@[b as int] == crate::types::Value::Undet
                    &&& forall|j: int|
                        0 <= j < i && #[trigger] assignment@[j] == crate::types::Value::Undet
                            ==> self.scores@[j] <= self.scores@[b as int]
                                && (j < b ==> self.scores@[j] < self.scores@[b as int])
                },
            decreases n - i,
        {
            if matches!(assignment[i], crate::types::Value::Undet) {
                let better = match best {
                    Some(prev) => self.scores[prev] < self.scores[i],
                    None => true,
                };
                if better {
                    best = Some(i);
                }
            }
            i += 1;
        }
        match best {
            Some(b) => Some(crate::types::Var(b)),
            None => None,
        }
    }
}

} // verus!
