//! The order in which a solver tries its variables: a max-heap by activity.

use crate::compile::double;
use vstd::prelude::*;

verus! {

/// Above this, every activity is scaled down: ten to the power of 100, in double
/// precision.
pub const ACTIVITY_LIMIT: u64 = 0x54b2_49ad_2594_c37d;

/// What activities and the bump are multiplied by when they are scaled down: ten to the
/// power of -100, in double precision.
pub const ACTIVITY_SCALE: u64 = 0x2b2b_ff2e_e48e_0530;

/// The first bump: 1, in double precision.
pub const FIRST_BUMP: u64 = 0x3ff0_0000_0000_0000;

/// What the bump is multiplied by after each conflict: 1 / 0.95, in double precision.
pub const BUMP_GROWTH: u64 = 0x3ff0_d794_35e5_0d79;

pub open spec fn parent_of(at: int) -> int {
    (at - 1) / 2
}

/// Whether `left` is tried before `right`: the more active one, and between
/// equals the lower index.
pub open spec fn outranks_in(activity: Seq<u64>, left: int, right: int) -> bool {
    activity[left] > activity[right] || (activity[left] == activity[right] && left < right)
}

/// Whether `position` puts `variable` at place `at` of the heap.
pub open spec fn stands_at(position: Seq<Option<usize>>, variable: int, at: int) -> bool {
    position[variable] is Some && position[variable]->0 == at
}

/// Whether the variable at `child` does not outrank the one at `above`.
pub open spec fn below(heap: Seq<usize>, activity: Seq<u64>, child: int, above: int) -> bool {
    !outranks_in(activity, heap[child] as int, heap[above] as int)
}

/// Variables waiting to be decided, most active first.
///
/// `position` is where each variable stands in `heap`, so raising one
/// variable is a sift rather than a search.
pub struct VarOrder {
    pub heap: Vec<usize>,
    pub position: Vec<Option<usize>>,
    pub activity: Vec<u64>,
    pub bump: u64,
}

/// Which variables wait, and how active they are: all that decides which is first.
#[verifier::ext_equal]
pub struct Waiting {
    pub waits: Seq<bool>,
    pub activity: Seq<u64>,
    pub bump: u64,
}

impl View for VarOrder {
    type V = Waiting;

    open spec fn view(&self) -> Waiting {
        Waiting {
            waits: Seq::new(self.position@.len(), |v: int| self.position@[v] is Some),
            activity: self.activity@,
            bump: self.bump,
        }
    }
}

impl Waiting {
    /// One variable more.
    pub open spec fn with(self, variable: int) -> Waiting {
        Waiting { waits: self.waits.update(variable, true), ..self }
    }

    /// All activities and the bump scaled down.
    pub open spec fn scaled(self) -> Waiting {
        Waiting {
            activity: Seq::new(
                self.activity.len(),
                |v: int| double::product_of(self.activity[v], ACTIVITY_SCALE),
            ),
            bump: double::product_of(self.bump, ACTIVITY_SCALE),
            ..self
        }
    }

    /// One variable more active.
    pub open spec fn raised(self, variable: int) -> Waiting {
        let grown = double::sum_of(self.activity[variable], self.bump);
        let raised = Waiting { activity: self.activity.update(variable, grown), ..self };
        if grown > ACTIVITY_LIMIT {
            raised.scaled()
        } else {
            raised
        }
    }

    /// Every later bump weighs more.
    pub open spec fn decayed(self) -> Waiting {
        Waiting { bump: double::product_of(self.bump, BUMP_GROWTH), ..self }
    }

    /// The variable waits, and none that waits is tried before it.
    pub open spec fn is_first(self, variable: int) -> bool {
        &&& 0 <= variable < self.waits.len()
        &&& self.waits[variable]
        &&& forall|u: int|
            0 <= u < self.waits.len() && u != variable && #[trigger] self.waits[u] ==> outranks_in(
                self.activity,
                variable,
                u,
            )
    }

    /// The variable that is tried next, if one waits.
    pub open spec fn first(self) -> Option<int> {
        if exists|v: int| self.is_first(v) {
            Some(choose|v: int| self.is_first(v))
        } else {
            None
        }
    }

    /// One variable fewer.
    pub open spec fn without(self, variable: int) -> Waiting {
        Waiting { waits: self.waits.update(variable, false), ..self }
    }
}

proof fn lemma_same_waits(one: &VarOrder, other: &VarOrder)
    requires
        one.same_waiting(other),
    ensures
        one@.waits == other@.waits,
{
    assert forall|v: int| 0 <= v < one@.waits.len() implies one@.waits[v] == other@.waits[v] by {
        assert(one.holds(v) <==> other.holds(v));
    }
    assert(one@.waits =~= other@.waits);
}

/// There is but one first variable.
pub proof fn lemma_first_is(waiting: Waiting, variable: int)
    requires
        waiting.is_first(variable),
    ensures
        waiting.first() == Some(variable),
{
    let other = choose|v: int| waiting.is_first(v);
    assert(waiting.is_first(other));
    if other != variable {
        assert(waiting.waits[other] && waiting.waits[variable]);
        assert(outranks_in(waiting.activity, variable, other));
        assert(outranks_in(waiting.activity, other, variable));
    }
}

impl VarOrder {
    /// `heap` and `position` are inverse to each other.
    pub open spec fn linked(&self, vars: nat) -> bool {
        &&& self.position@.len() == vars
        &&& self.activity@.len() == vars
        &&& self.bump <= double::INFINITY
        &&& forall|v: int|
            0 <= v < vars ==> #[trigger] self.activity@[v] <= double::INFINITY
        &&& forall|i: int|
            0 <= i < self.heap@.len() ==> (#[trigger] self.heap@[i]) < vars
                && stands_at(self.position@, self.heap@[i] as int, i)
        &&& forall|v: int|
            0 <= v < vars ==> (#[trigger] self.position@[v] matches Some(p) ==> p
                < self.heap@.len() && self.heap@[p as int] == v)
    }

    /// No child whose parent stands at `from` or later outranks that parent.
    pub open spec fn ordered_from(&self, from: int) -> bool {
        forall|i: int|
            0 < i < self.heap@.len() && parent_of(i) >= from ==> #[trigger] below(self.heap@, self.activity@, i, parent_of(i))
    }

    pub open spec fn wf(&self, vars: nat) -> bool {
        self.linked(vars) && self.ordered_from(0)
    }

    /// Whether `variable` is waiting.
    pub open spec fn holds(&self, variable: int) -> bool {
        self.position@[variable] is Some
    }

    /// The same variables wait here as in `other`, with the same activities.
    pub open spec fn same_waiting(&self, other: &VarOrder) -> bool {
        &&& self.position@.len() == other.position@.len()
        &&& forall|v: int|
            0 <= v < self.position@.len() ==> (#[trigger] self.holds(v) <==> other.holds(v))
    }

    /// Ordered except between `at` and its parent, with `at`'s children
    /// already below that parent.
    spec fn rising(&self, at: int) -> bool {
        &&& forall|i: int|
            0 < i < self.heap@.len() && i != at ==> #[trigger] below(self.heap@, self.activity@, i, parent_of(i))
        &&& forall|i: int|
            0 < i < self.heap@.len() && parent_of(i) == at && at > 0 ==> #[trigger] below(self.heap@, self.activity@, i, parent_of(at))
    }

    /// Ordered from `from` on except between `at` and its children, which
    /// are already below `at`'s parent.
    spec fn sinking(&self, at: int, from: int) -> bool {
        &&& forall|i: int|
            0 < i < self.heap@.len() && parent_of(i) >= from && parent_of(i) != at
                ==> #[trigger] below(self.heap@, self.activity@, i, parent_of(i))
        &&& forall|i: int|
            0 < i < self.heap@.len() && parent_of(i) == at && at > 0 && parent_of(at) >= from
                ==> #[trigger] below(self.heap@, self.activity@, i, parent_of(at))
    }

    pub fn new(vars: usize) -> (order: VarOrder)
        ensures
            order.wf(vars as nat),
            forall|v: int| 0 <= v < vars ==> !#[trigger] order.holds(v),
            order@ == (Waiting {
                waits: Seq::new(vars as nat, |v: int| false),
                activity: Seq::new(vars as nat, |v: int| 0u64),
                bump: FIRST_BUMP,
            }),
    {
        let order = VarOrder {
            heap: Vec::new(),
            position: vec![None; vars],
            activity: vec![0u64; vars],
            bump: FIRST_BUMP,
        };
        assert(order@ =~= (Waiting {
            waits: Seq::new(vars as nat, |v: int| false),
            activity: Seq::new(vars as nat, |v: int| 0u64),
            bump: FIRST_BUMP,
        }));
        order
    }

    fn outranks(&self, left: usize, right: usize) -> (first: bool)
        requires
            left < self.activity@.len(),
            right < self.activity@.len(),
        ensures
            first == outranks_in(self.activity@, left as int, right as int),
    {
        let one: u64 = self.activity[left];
        let other: u64 = self.activity[right];
        one > other || (one == other && left < right)
    }

    fn swap_heap(&mut self, left: usize, right: usize, Ghost(vars): Ghost<nat>)
        requires
            old(self).linked(vars),
            left < old(self).heap@.len(),
            right < old(self).heap@.len(),
        ensures
            final(self).linked(vars),
            final(self).heap@ == old(self).heap@.update(
                left as int,
                old(self).heap@[right as int],
            ).update(right as int, old(self).heap@[left as int]),
            final(self).activity == old(self).activity,
            final(self).bump == old(self).bump,
            final(self).same_waiting(old(self)),
    {
        let here: usize = self.heap[left];
        let there: usize = self.heap[right];
        self.heap[left] = there;
        self.heap[right] = here;
        self.position[there] = Some(left);
        self.position[here] = Some(right);
        proof {
            let was = old(self).heap@;
            assert forall|i: int| 0 <= i < self.heap@.len() implies (#[trigger] self.heap@[i]) < vars
                && stands_at(self.position@, self.heap@[i] as int, i) by {
                let k = if i == left { right as int } else if i == right { left as int } else { i };
                assert(self.heap@[i] == was[k]);
                assert(was[left as int] == here && was[right as int] == there);
                assert(stands_at(old(self).position@, was[k] as int, k));
            }
            assert forall|v: int| 0 <= v < vars implies (#[trigger] self.position@[v] matches Some(p)
                ==> p < self.heap@.len() && self.heap@[p as int] == v) by {
                assert(old(self).position@[v] == old(self).position@[v]);
            }
        }
    }

    /// Raises the variable at `at` until its parent outranks it.
    fn sift_up(&mut self, at: usize, Ghost(vars): Ghost<nat>)
        requires
            old(self).linked(vars),
            at < old(self).heap@.len(),
            old(self).rising(at as int),
        ensures
            final(self).wf(vars),
            final(self).heap@.len() == old(self).heap@.len(),
            final(self).activity == old(self).activity,
            final(self).bump == old(self).bump,
            final(self).same_waiting(old(self)),
    {
        let mut at: usize = at;
        while at > 0
            invariant
                self.linked(vars),
                at < self.heap@.len(),
                self.rising(at as int),
                self.heap@.len() == old(self).heap@.len(),
                self.activity == old(self).activity,
                self.bump == old(self).bump,
                self.same_waiting(old(self)),
            ensures
                self.ordered_from(0),
            decreases at,
        {
            let parent: usize = (at - 1) / 2;
            if !self.outranks(self.heap[at], self.heap[parent]) {
                break;
            }
            let ghost before = *self;
            self.swap_heap(at, parent, Ghost(vars));
            assert(self.rising(parent as int)) by {
                assert forall|i: int|
                    0 < i < self.heap@.len() && i != parent implies #[trigger] below(self.heap@, self.activity@, i, parent_of(i)) by {
                    assert(below(before.heap@, before.activity@, i, parent_of(i)) || i == at);
                    assert(i != at && parent_of(i) == at ==> below(
                        before.heap@,
                        before.activity@,
                        i,
                        parent_of(at as int),
                    ));
                }
                assert forall|i: int|
                    0 < i < self.heap@.len() && parent_of(i) == parent && parent
                        > 0 implies #[trigger] below(
                    self.heap@,
                    self.activity@,
                    i,
                    parent_of(parent as int),
                ) by {
                    let up = parent_of(parent as int);
                    assert(below(before.heap@, before.activity@, parent as int, up));
                    assert(i != at ==> below(before.heap@, before.activity@, i, parent_of(i)));
                }
            }
            at = parent;
        }
    }

    /// Lowers the variable at `at` until neither child outranks it.
    fn sift_down(&mut self, at: usize, Ghost(from): Ghost<int>, Ghost(vars): Ghost<nat>)
        requires
            old(self).linked(vars),
            at < old(self).heap@.len(),
            0 <= from <= at,
            old(self).sinking(at as int, from),
        ensures
            final(self).linked(vars),
            final(self).ordered_from(from),
            final(self).heap@.len() == old(self).heap@.len(),
            final(self).activity == old(self).activity,
            final(self).bump == old(self).bump,
            final(self).same_waiting(old(self)),
    {
        let mut at: usize = at;
        while at < self.heap.len() / 2
            invariant
                self.linked(vars),
                at < self.heap@.len(),
                0 <= from <= at,
                self.sinking(at as int, from),
                self.heap@.len() == old(self).heap@.len(),
                self.activity == old(self).activity,
                self.bump == old(self).bump,
                self.same_waiting(old(self)),
            ensures
                self.ordered_from(from),
            decreases self.heap@.len() - at,
        {
            let left: usize = 2 * at + 1;
            let mut best: usize = left;
            if left < self.heap.len() - 1 {
                if self.outranks(self.heap[left + 1], self.heap[left]) {
                    best = left + 1;
                }
            }
            if !self.outranks(self.heap[best], self.heap[at]) {
                break;
            }
            let ghost before = *self;
            self.swap_heap(at, best, Ghost(vars));
            assert(self.sinking(best as int, from)) by {
                assert forall|i: int|
                    0 < i < self.heap@.len() && parent_of(i) >= from && parent_of(i)
                        != best implies #[trigger] below(self.heap@, self.activity@, i, parent_of(i)) by {
                    assert(parent_of(i) != at ==> below(
                        before.heap@,
                        before.activity@,
                        i,
                        parent_of(i),
                    ));
                    assert(parent_of(best as int) == at);
                    assert(at > 0 ==> below(
                        before.heap@,
                        before.activity@,
                        best as int,
                        parent_of(at as int),
                    ) || parent_of(at as int) < from);
                }
                assert forall|i: int|
                    0 < i < self.heap@.len() && parent_of(i) == best && best > 0 && parent_of(
                        best as int,
                    ) >= from implies #[trigger] below(
                    self.heap@,
                    self.activity@,
                    i,
                    parent_of(best as int),
                ) by {
                    assert(below(before.heap@, before.activity@, i, parent_of(i)));
                }
            }
            at = best;
        }
    }

    /// Puts `variable` among the waiting ones, if it is not there already.
    pub fn insert(&mut self, variable: usize, Ghost(vars): Ghost<nat>)
        requires
            old(self).wf(vars),
            variable < vars,
        ensures
            final(self).wf(vars),
            final(self).activity == old(self).activity,
            final(self).bump == old(self).bump,
            forall|v: int|
                0 <= v < vars ==> (#[trigger] final(self).holds(v) <==> old(self).holds(v) || v
                    == variable),
            final(self)@ == old(self)@.with(variable as int),
    {
        if self.position[variable].is_some() {
            assert(self@ =~= old(self)@.with(variable as int));
            return;
        }
        let at: usize = self.heap.len();
        self.heap.push(variable);
        self.position[variable] = Some(at);
        let ghost placed = *self;
        assert(self.linked(vars)) by {
            assert forall|i: int| 0 <= i < self.heap@.len() implies (#[trigger] self.heap@[i]) < vars
                && stands_at(self.position@, self.heap@[i] as int, i) by {
                if i < at {
                    assert(self.heap@[i] == old(self).heap@[i]);
                }
            }
            assert forall|v: int| 0 <= v < vars implies (#[trigger] self.position@[v] matches Some(p)
                ==> p < self.heap@.len() && self.heap@[p as int] == v) by {
                assert(old(self).position@[v] == old(self).position@[v]);
            }
        }
        assert(self.rising(at as int)) by {
            assert forall|i: int| 0 < i < self.heap@.len() && i != at implies #[trigger] below(self.heap@, self.activity@, i, parent_of(i)) by {
                assert(below(old(self).heap@, old(self).activity@, i, parent_of(i)));
            }
        }
        self.sift_up(at, Ghost(vars));
        assert forall|v: int| 0 <= v < vars implies (#[trigger] self.holds(v) <==> old(self).holds(v)
            || v == variable) by {
            assert(placed.holds(v) <==> old(self).holds(v) || v == variable);
        }
        assert(self@ =~= old(self)@.with(variable as int)) by {
            assert forall|v: int| 0 <= v < vars implies self@.waits[v] == old(self)@.with(
                variable as int,
            ).waits[v] by {
                assert(self.holds(v) <==> old(self).holds(v) || v == variable);
            }
        }
    }

    /// Scales every activity and the bump down, and restores the order that the lost
    /// digits may have upset: between equals the lower index is tried first.
    fn rescale(&mut self, Ghost(vars): Ghost<nat>)
        requires
            old(self).linked(vars),
        ensures
            final(self).wf(vars),
            final(self).same_waiting(old(self)),
            final(self)@ == old(self)@.scaled(),
    {
        let mut variable: usize = 0;
        while variable < self.activity.len()
            invariant
                variable <= self.activity@.len() == vars,
                old(self).linked(vars),
                self.heap == old(self).heap,
                self.position == old(self).position,
                self.bump == old(self).bump,
                forall|v: int|
                    0 <= v < vars ==> #[trigger] self.activity@[v] <= double::INFINITY,
                forall|v: int|
                    0 <= v < vars ==> #[trigger] self.activity@[v] == (if v < variable {
                        double::product_of(old(self).activity@[v], ACTIVITY_SCALE)
                    } else {
                        old(self).activity@[v]
                    }),
            decreases vars - variable,
        {
            let scaled: u64 = double::product(self.activity[variable], ACTIVITY_SCALE);
            self.activity[variable] = scaled;
            variable = variable + 1;
        }
        self.bump = double::product(self.bump, ACTIVITY_SCALE);
        let ghost scaled = self.activity;
        let ghost bump_now = self.bump;
        assert(self.linked(vars)) by {
            assert forall|i: int| 0 <= i < self.heap@.len() implies (#[trigger] self.heap@[i]) < vars
                && stands_at(self.position@, self.heap@[i] as int, i) by {
                assert(old(self).heap@[i] == self.heap@[i]);
            }
            assert forall|v: int| 0 <= v < vars implies (#[trigger] self.position@[v] matches Some(p)
                ==> p < self.heap@.len() && self.heap@[p as int] == v) by {
                assert(old(self).position@[v] == self.position@[v]);
            }
        }
        let mut at: usize = self.heap.len() / 2;
        assert(self.ordered_from(at as int));
        while at > 0
            invariant
                self.linked(vars),
                at <= self.heap@.len() / 2,
                self.ordered_from(at as int),
                self.same_waiting(old(self)),
                self.activity == scaled,
                self.bump == bump_now,
            decreases at,
        {
            at = at - 1;
            self.sift_down(at, Ghost(at as int), Ghost(vars));
        }
        assert(self@ =~= old(self)@.scaled()) by {
            lemma_same_waits(self, old(self));
        }
    }

    /// Makes `variable` more active.
    pub fn raise(&mut self, variable: usize, Ghost(vars): Ghost<nat>)
        requires
            old(self).wf(vars),
            variable < vars,
        ensures
            final(self).wf(vars),
            final(self).same_waiting(old(self)),
            final(self)@ == old(self)@.raised(variable as int),
    {
        assert(self.activity@[variable as int] <= double::INFINITY);
        let grown: u64 = double::sum(self.activity[variable], self.bump);
        self.activity[variable] = grown;
        let ghost placed = *self;
        proof {
            double::lemma_sum_grows(old(self).activity@[variable as int], self.bump);
            lemma_same_waits(self, old(self));
        }
        assert(self.linked(vars)) by {
            assert forall|i: int| 0 <= i < self.heap@.len() implies (#[trigger] self.heap@[i]) < vars
                && stands_at(self.position@, self.heap@[i] as int, i) by {
                assert(old(self).heap@[i] == self.heap@[i]);
            }
            assert forall|v: int| 0 <= v < vars implies (#[trigger] self.position@[v] matches Some(p)
                ==> p < self.heap@.len() && self.heap@[p as int] == v) by {
                assert(old(self).position@[v] == old(self).position@[v]);
            }
            assert forall|v: int| 0 <= v < vars implies #[trigger] self.activity@[v]
                <= double::INFINITY by {
                assert(old(self).activity@[v] <= double::INFINITY);
            }
        }
        if grown > ACTIVITY_LIMIT {
            self.rescale(Ghost(vars));
            assert(placed@ =~= (Waiting {
                activity: old(self)@.activity.update(variable as int, grown),
                ..old(self)@
            }));
            return;
        }
        match self.position[variable] {
            Some(at) => {
                assert(self.rising(at as int)) by {
                    assert forall|i: int| 0 < i < self.heap@.len() && i != at implies #[trigger] below(self.heap@, self.activity@, i, parent_of(i)) by {
                        assert(below(old(self).heap@, old(self).activity@, i, parent_of(i)));
                        assert(stands_at(self.position@, self.heap@[i] as int, i));
                    }
                    assert forall|i: int|
                        0 < i < self.heap@.len() && parent_of(i) == at && at > 0 implies #[trigger] below(self.heap@, self.activity@, i, parent_of(at as int)) by {
                        assert(below(old(self).heap@, old(self).activity@, i, parent_of(i)));
                        assert(below(
                            old(self).heap@,
                            old(self).activity@,
                            at as int,
                            parent_of(at as int),
                        ));
                        assert(stands_at(self.position@, self.heap@[i] as int, i));
                        let up = parent_of(at as int);
                        assert(stands_at(self.position@, self.heap@[up] as int, up));
                    }
                }
                self.sift_up(at, Ghost(vars));
            },
            None => {
                assert forall|i: int| 0 < i < self.heap@.len() implies #[trigger] below(self.heap@, self.activity@, i, parent_of(i)) by {
                    assert(below(old(self).heap@, old(self).activity@, i, parent_of(i)));
                    assert(stands_at(self.position@, self.heap@[i] as int, i));
                    let up = parent_of(i);
                    assert(stands_at(self.position@, self.heap@[up] as int, up));
                }
            },
        }
        assert(self@ =~= old(self)@.raised(variable as int)) by {
            lemma_same_waits(self, old(self));
        }
    }

    /// Makes every later bump weigh more, which is a decay of one in twenty for
    /// everything bumped before.
    pub fn decay(&mut self, Ghost(vars): Ghost<nat>)
        requires
            old(self).wf(vars),
        ensures
            final(self).wf(vars),
            final(self).same_waiting(old(self)),
            final(self).activity == old(self).activity,
            final(self)@ == old(self)@.decayed(),
    {
        self.bump = double::product(self.bump, BUMP_GROWTH);
        assert(self@ =~= old(self)@.decayed()) by {
            lemma_same_waits(self, old(self));
        }
    }

    /// The root outranks every other waiting variable.
    proof fn lemma_root_first(&self, vars: nat, i: int)
        requires
            self.wf(vars),
            0 < i < self.heap@.len(),
        ensures
            outranks_in(self.activity@, self.heap@[0] as int, self.heap@[i] as int),
        decreases i,
    {
        assert(self.heap@[i] == self.heap@[i]);
        assert(stands_at(self.position@, self.heap@[i] as int, i));
        assert(stands_at(self.position@, self.heap@[0] as int, 0));
        let up = parent_of(i);
        assert(below(self.heap@, self.activity@, i, up));
        assert(stands_at(self.position@, self.heap@[up] as int, up));
        if up > 0 {
            self.lemma_root_first(vars, up);
        }
    }

    /// Takes the first variable out of the waiting ones.
    pub fn pop(&mut self, Ghost(vars): Ghost<nat>) -> (first: Option<usize>)
        requires
            old(self).wf(vars),
        ensures
            final(self).wf(vars),
            final(self).activity == old(self).activity,
            final(self).bump == old(self).bump,
            first matches Some(v) ==> {
                &&& v < vars
                &&& old(self).holds(v as int)
                &&& forall|u: int|
                    0 <= u < vars && u != v && #[trigger] old(self).holds(u) ==> outranks_in(
                        old(self).activity@,
                        v as int,
                        u,
                    )
                &&& forall|u: int|
                    0 <= u < vars ==> (#[trigger] final(self).holds(u) <==> old(self).holds(u) && u
                        != v)
            },
            first is None ==> forall|u: int| 0 <= u < vars ==> !#[trigger] old(self).holds(u),
            first is None ==> final(self).same_waiting(old(self)),
            first is Some ==> final(self).heap@.len() == old(self).heap@.len() - 1,
            match first {
                Some(v) => old(self)@.first() == Some(v as int) && final(self)@ == old(
                    self,
                )@.without(v as int),
                None => old(self)@.first() is None && final(self)@ == old(self)@,
            },
    {
        if self.heap.len() == 0 {
            assert forall|u: int| 0 <= u < vars implies !#[trigger] self.holds(u) by {
                assert(self.position@[u] == self.position@[u]);
            }
            assert(old(self)@.first() is None) by {
                assert forall|v: int| !old(self)@.is_first(v) by {
                    if old(self)@.is_first(v) {
                        assert(!self.holds(v));
                    }
                }
            }
            return None;
        }
        let variable: usize = self.heap[0];
        let last: usize = self.heap.len() - 1;
        assert forall|u: int|
            0 <= u < vars && u != variable && #[trigger] old(self).holds(u) implies outranks_in(
            old(self).activity@,
            variable as int,
            u,
        ) by {
            let p = self.position@[u]->0;
            assert(self.heap@[p as int] == u);
            self.lemma_root_first(vars, p as int);
        }
        self.swap_heap(0, last, Ghost(vars));
        let ghost swapped = *self;
        self.heap.pop();
        self.position[variable] = None;
        assert(self.linked(vars)) by {
            assert(stands_at(swapped.position@, variable as int, last as int));
            assert forall|i: int| 0 <= i < self.heap@.len() implies (#[trigger] self.heap@[i]) < vars
                && stands_at(self.position@, self.heap@[i] as int, i) by {
                assert(swapped.heap@[i] == self.heap@[i]);
                assert(stands_at(swapped.position@, swapped.heap@[i] as int, i));
            }
            assert forall|v: int| 0 <= v < vars implies (#[trigger] self.position@[v] matches Some(p)
                ==> p < self.heap@.len() && self.heap@[p as int] == v) by {
                assert(swapped.position@[v] == swapped.position@[v]);
            }
        }
        let ghost shorter = *self;
        if self.heap.len() > 0 {
            assert(self.sinking(0, 0)) by {
                assert forall|i: int|
                    0 < i < self.heap@.len() && parent_of(i) >= 0 && parent_of(i)
                        != 0 implies #[trigger] below(self.heap@, self.activity@, i, parent_of(i)) by {
                    assert(below(old(self).heap@, old(self).activity@, i, parent_of(i)));
                    assert(stands_at(self.position@, self.heap@[i] as int, i));
                    let up = parent_of(i);
                    assert(stands_at(self.position@, self.heap@[up] as int, up));
                }
            }
            self.sift_down(0, Ghost(0), Ghost(vars));
        }
        assert forall|u: int| 0 <= u < vars implies (#[trigger] self.holds(u) <==> old(self).holds(u)
            && u != variable) by {
            assert(shorter.holds(u) <==> swapped.holds(u) && u != variable);
            assert(swapped.holds(u) <==> old(self).holds(u));
        }
        proof {
            assert(self@ =~= old(self)@.without(variable as int)) by {
                assert forall|u: int| 0 <= u < vars implies self@.waits[u] == old(self)@.without(
                    variable as int,
                ).waits[u] by {
                    assert(self.holds(u) <==> old(self).holds(u) && u != variable);
                }
            }
            assert(old(self)@.is_first(variable as int)) by {
                assert(stands_at(old(self).position@, old(self).heap@[0] as int, 0));
                assert forall|u: int|
                    0 <= u < old(self)@.waits.len() && u != variable
                        && #[trigger] old(self)@.waits[u] implies outranks_in(
                    old(self)@.activity,
                    variable as int,
                    u,
                ) by {
                    assert(old(self).holds(u));
                }
            }
            lemma_first_is(old(self)@, variable as int);
        }
        Some(variable)
    }
}

} // verus!
