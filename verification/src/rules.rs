//! Registered replication rules.
//!
//! A rule names the component types that replicate together and the codec
//! of each. Rules are kept sorted by priority, highest first, so a group
//! rule takes precedence over the single-component rules it overlaps.

use vstd::prelude::*;

verus! {

/// Describes a replicated component or group of components: pairs of
/// (component identifier, codec identifier).
pub struct ReplicationRule {
    /// Priority of this rule; by default the number of its components, so
    /// larger groups win.
    pub priority: usize,
    pub components: Vec<(u64, u64)>,
}

impl ReplicationRule {
    /// Creates a rule with priority equal to its component count.
    pub fn new(components: Vec<(u64, u64)>) -> (r: Self)
        ensures
            r.priority == components@.len(),
            r.components@ == components@,
    {
        let priority = components.len();
        ReplicationRule { priority, components }
    }

    /// Whether an archetype carries every component the rule names.
    pub fn matches(&self, archetype: &Vec<u64>) -> (r: bool)
        ensures
            r == forall|i: int| 0 <= i < self.components@.len()
                ==> archetype@.contains((#[trigger] self.components@[i]).0),
    {
        let mut i: usize = 0;
        while i < self.components.len()
            invariant
                i <= self.components@.len(),
                forall|j: int| 0 <= j < i
                    ==> archetype@.contains((#[trigger] self.components@[j]).0),
            decreases self.components@.len() - i,
        {
            if !vec_contains_u64(archetype, self.components[i].0) {
                return false;
            }
            i = i + 1;
        }
        true
    }

    /// Whether the rule matched before a removal and lost at least one
    /// component to it: every rule component is either in the removed set
    /// or still on the archetype, and at least one was removed.
    pub fn matches_removals(&self, post_removal_archetype: &Vec<u64>, removed_components: &Vec<
        u64,
    >) -> (r: bool)
        ensures
            r == ({
                &&& forall|i: int| 0 <= i < self.components@.len()
                    ==> removed_components@.contains((#[trigger] self.components@[i]).0)
                        || post_removal_archetype@.contains(self.components@[i].0)
                &&& exists|i: int| 0 <= i < self.components@.len()
                    && removed_components@.contains((#[trigger] self.components@[i]).0)
            }),
    {
        let mut found: bool = false;
        let mut i: usize = 0;
        while i < self.components.len()
            invariant
                i <= self.components@.len(),
                forall|j: int| 0 <= j < i
                    ==> removed_components@.contains((#[trigger] self.components@[j]).0)
                        || post_removal_archetype@.contains(self.components@[j].0),
                found == exists|j: int| 0 <= j < i
                    && removed_components@.contains((#[trigger] self.components@[j]).0),
            decreases self.components@.len() - i,
        {
            let id = self.components[i].0;
            if vec_contains_u64(removed_components, id) {
                found = true;
                proof {
                    assert(removed_components@.contains(self.components@[i as int].0));
                }
            } else if !vec_contains_u64(post_removal_archetype, id) {
                proof {
                    if exists|j: int| 0 <= j < self.components@.len()
                        && removed_components@.contains((#[trigger] self.components@[j]).0) {
                    }
                }
                return false;
            }
            i = i + 1;
        }
        found
    }
}

/// True when `v@` holds `x`.
fn vec_contains_u64(v: &Vec<u64>, x: u64) -> (r: bool)
    ensures
        r == v@.contains(x),
{
    let mut i: usize = 0;
    while i < v.len()
        invariant
            i <= v@.len(),
            forall|j: int| 0 <= j < i ==> v@[j] != x,
        decreases v@.len() - i,
    {
        if v[i] == x {
            return true;
        }
        i = i + 1;
    }
    proof {
        if v@.contains(x) {
            let j = choose|j: int| 0 <= j < v@.len() && v@[j] == x;
            assert(v@[j] != x);
        }
    }
    false
}

/// All registered rules, sorted by priority in descending order.
pub struct ReplicationRules {
    rules: Vec<ReplicationRule>,
}

impl ReplicationRules {
    pub closed spec fn rules_view(self) -> Seq<ReplicationRule> {
        self.rules@
    }

    /// Priorities never go up along the list.
    pub open spec fn sorted(self) -> bool {
        forall|i: int, j: int| 0 <= i < j < self.rules_view().len()
            ==> (#[trigger] self.rules_view()[i]).priority
                >= (#[trigger] self.rules_view()[j]).priority
    }

    pub fn new() -> (r: Self)
        ensures
            r.sorted(),
            r.rules_view().len() == 0,
    {
        ReplicationRules { rules: Vec::new() }
    }

    pub fn len(&self) -> (r: usize)
        ensures
            r == self.rules_view().len(),
    {
        self.rules.len()
    }

    /// The rule at position `i` in priority order.
    pub fn get(&self, i: usize) -> (r: &ReplicationRule)
        requires
            i < self.rules_view().len(),
        ensures
            *r == self.rules_view()[i as int],
    {
        &self.rules[i]
    }

    /// Inserts a rule, keeping the list sorted by priority in descending
    /// order: it lands after every rule of equal or higher priority and
    /// before every rule of lower priority.
    pub fn insert(&mut self, rule: ReplicationRule)
        requires
            old(self).sorted(),
        ensures
            final(self).sorted(),
            exists|i: int| {
                &&& 0 <= i <= old(self).rules_view().len()
                &&& final(self).rules_view() == old(self).rules_view().insert(i, rule)
            },
    {
        let ghost pre = self.rules@;
        let mut i: usize = 0;
        while i < self.rules.len()
            invariant
                i <= self.rules@.len(),
                self.rules@ == pre,
                old(self).sorted(),
                pre == old(self).rules_view(),
                forall|j: int| 0 <= j < i ==> (#[trigger] pre[j]).priority >= rule.priority,
            decreases self.rules@.len() - i,
        {
            if self.rules[i].priority < rule.priority {
                let ghost prio = rule.priority;
                self.rules.insert(i, rule);
                proof {
                    assert(self.rules@ == pre.insert(i as int, self.rules@[i as int]));
                    assert forall|a: int, b: int|
                        0 <= a < b < self.rules@.len() implies
                        (#[trigger] self.rules@[a]).priority
                            >= (#[trigger] self.rules@[b]).priority by {
                        let pa: int = if a < i { a } else { a - 1 };
                        let pb: int = if b < i { b } else { b - 1 };
                        if a == i {
                            assert(self.rules@[b] == pre[pb]);
                            assert(pre[i as int].priority <= pre[pb].priority
                                || pre[pb].priority <= pre[i as int].priority);
                            if pb >= i {
                                assert(pre[i as int].priority >= pre[pb].priority);
                            }
                            assert(self.rules@[a].priority == prio);
                            assert(prio > pre[i as int].priority);
                        } else if b == i {
                            assert(self.rules@[a] == pre[pa]);
                            assert(pre[pa].priority >= prio);
                        } else {
                            assert(self.rules@[a] == pre[pa]);
                            assert(self.rules@[b] == pre[pb]);
                            assert(pre[pa].priority >= pre[pb].priority);
                        }
                    }
                }
                return;
            }
            i = i + 1;
        }
        let ghost n = self.rules@.len() as int;
        self.rules.push(rule);
        proof {
            assert(self.rules@ =~= pre.insert(n, self.rules@[n]));
            assert forall|a: int, b: int| 0 <= a < b < self.rules@.len() implies
                (#[trigger] self.rules@[a]).priority
                    >= (#[trigger] self.rules@[b]).priority by {
                if b < n {
                    assert(self.rules@[a] == pre[a] && self.rules@[b] == pre[b]);
                } else {
                    assert(self.rules@[a] == pre[a]);
                }
            }
        }
    }

    /// The priorities in list order, for inspection.
    pub fn priorities(&self) -> (r: Vec<usize>)
        ensures
            r@.len() == self.rules_view().len(),
            forall|i: int| 0 <= i < r@.len()
                ==> r@[i] == (#[trigger] self.rules_view()[i]).priority,
    {
        let mut out: Vec<usize> = Vec::new();
        let mut i: usize = 0;
        while i < self.rules.len()
            invariant
                i <= self.rules@.len(),
                out@.len() == i,
                forall|j: int| 0 <= j < i
                    ==> out@[j] == (#[trigger] self.rules@[j]).priority,
            decreases self.rules@.len() - i,
        {
            out.push(self.rules[i].priority);
            i = i + 1;
        }
        out
    }
}

} // verus!
