use vstd::prelude::*;

use crate::order::{lemma_precedes_order, precedes, Policy, ScoredDoc};

verus! {

/// Whether `s[w]` is a last-ranked entry of `s` under `p`: no entry of `s`
/// ranks after it.
pub open spec fn min(a: nat, b: nat) -> nat {
    if a <= b {
        a
    } else {
        b
    }
}

pub open spec fn is_worst(p: Policy, s: Seq<ScoredDoc>, w: int) -> bool {
    0 <= w < s.len() && forall|k: int| 0 <= k < s.len() ==> !#[trigger] precedes(p, s[w], s[k])
}

/// Every entry of `r` is an entry of `all`, and each entry of `all` is in
/// `r` unless `r` is full and no entry of `r` ranks after it.
pub open spec fn is_top(p: Policy, limit: nat, all: Seq<ScoredDoc>, r: Seq<ScoredDoc>) -> bool {
    &&& forall|i: int| 0 <= i < r.len() ==> all.contains(#[trigger] r[i])
    &&& forall|m: int|
        0 <= m < all.len() ==> r.contains(#[trigger] all[m]) || (r.len() == limit && forall|i: int|
            0 <= i < r.len() ==> !#[trigger] precedes(p, all[m], r[i]))
}

/// How a visit of `item` turns container `before` into `after`. Below
/// capacity the item is added; at capacity it replaces a last-ranked entry
/// when it ranks strictly before it, and is dropped otherwise.
pub open spec fn visited_with(before: TopK, after: TopK, item: ScoredDoc) -> bool {
    let p = before.spec_policy();
    let old_items = before.spec_items();
    &&& after.spec_policy() == p
    &&& after.spec_limit() == before.spec_limit()
    &&& after.spec_offered() == before.spec_offered().push(item)
    &&& after.spec_visits() == before.spec_visits() + 1
    &&& old_items.len() < before.spec_limit() ==> after.spec_items() == old_items.push(item)
    &&& old_items.len() >= before.spec_limit() ==> exists|w: int|
        #![trigger old_items[w]]
        is_worst(p, old_items, w) && (if precedes(p, item, old_items[w]) {
            after.spec_items() == old_items.update(w, item)
        } else {
            after.spec_items() == old_items
        })
}

/// A fixed-capacity container of the best entries seen so far.
///
/// Entries are kept unordered; ordering is established once, when fruits
/// are merged.
pub struct TopK {
    policy: Policy,
    limit: usize,
    items: Vec<ScoredDoc>,
    /// The entries offered through `visit`, in order.
    offered: Ghost<Seq<ScoredDoc>>,
}

impl TopK {
    pub closed spec fn spec_policy(&self) -> Policy {
        self.policy
    }

    pub closed spec fn spec_limit(&self) -> nat {
        self.limit as nat
    }

    pub closed spec fn spec_items(&self) -> Seq<ScoredDoc> {
        self.items@
    }

    pub closed spec fn spec_visits(&self) -> nat {
        self.offered@.len()
    }

    pub closed spec fn spec_offered(&self) -> Seq<ScoredDoc> {
        self.offered@
    }

    /// The capacity is positive, and the container holds the best
    /// `min(limit, offered)` of the entries offered.
    pub closed spec fn wf(&self) -> bool {
        &&& self.limit >= 1
        &&& self.items.len() == min(self.limit as nat, self.offered@.len())
        &&& is_top(self.policy, self.limit as nat, self.offered@, self.items@)
    }

    /// What a well-formed container guarantees about its size.
    pub proof fn lemma_bounds(&self)
        requires
            self.wf(),
        ensures
            self.spec_limit() >= 1,
            self.spec_items().len() <= self.spec_limit(),
            self.spec_items().len() <= self.spec_visits(),
            self.spec_visits() == self.spec_offered().len(),
            self.spec_items().len() == min(self.spec_limit(), self.spec_offered().len()),
            is_top(self.spec_policy(), self.spec_limit(), self.spec_offered(), self.spec_items()),
    {
    }

    /// An empty container of capacity `limit`.
    pub fn new(policy: Policy, limit: usize) -> (r: TopK)
        requires
            limit >= 1,
        ensures
            r.wf(),
            r.spec_policy() == policy,
            r.spec_limit() == limit,
            r.spec_items() == Seq::<ScoredDoc>::empty(),
            r.spec_visits() == 0,
            r.spec_offered() == Seq::<ScoredDoc>::empty(),
    {
        TopK { policy, limit, items: Vec::new(), offered: Ghost(Seq::empty()) }
    }

    pub fn limit(&self) -> (r: usize)
        ensures
            r == self.spec_limit(),
    {
        self.limit
    }

    pub fn len(&self) -> (r: usize)
        ensures
            r == self.spec_items().len(),
    {
        self.items.len()
    }

    /// Offers `item`. Below capacity it is kept; at capacity it replaces a
    /// last-ranked entry when it ranks strictly before it, and is dropped
    /// otherwise.
    pub fn visit(&mut self, item: ScoredDoc)
        requires
            old(self).wf(),
        ensures
            final(self).wf(),
            final(self).spec_policy() == old(self).spec_policy(),
            final(self).spec_limit() == old(self).spec_limit(),
            visited_with(*old(self), *final(self), item),
    {
        let ghost before = *self;
        self.offered = Ghost(self.offered@.push(item));
        let ghost all = self.offered@;
        assert(all.drop_last() =~= before.offered@);
        if self.items.len() < self.limit {
            self.items.push(item);
            proof {
                let items = self.items@;
                assert(items[items.len() - 1] == item);
                assert(all[all.len() - 1] == item);
                assert forall|i: int| 0 <= i < items.len() implies all.contains(#[trigger] items[i]) by {
                    if i < items.len() - 1 {
                        assert(before.items@[i] == items[i]);
                        let m = choose|m: int| 0 <= m < before.offered@.len() && before.offered@[m] == items[i];
                        assert(all[m] == items[i]);
                    }
                }
                assert forall|m: int| 0 <= m < all.len() implies items.contains(#[trigger] all[m]) || (
                items.len() == self.limit && forall|i: int|
                    0 <= i < items.len() ==> !#[trigger] precedes(self.policy, all[m], items[i])) by {
                    if m < all.len() - 1 {
                        assert(before.offered@[m] == all[m]);
                        let j = choose|j: int| 0 <= j < before.items@.len() && before.items@[j] == all[m];
                        assert(items[j] == all[m]);
                    }
                }
            }
            return ;
        }
        let n = self.items.len();
        let mut w: usize = 0;
        let mut i: usize = 1;
        while i < n
            invariant
                n == self.items.len(),
                n >= 1,
                w < i <= n,
                forall|k: int| 0 <= k < i ==> !#[trigger] precedes(self.policy, self.items@[w as int], self.items@[k]),
            decreases n - i,
        {
            if self.policy.precedes(&self.items[w], &self.items[i]) {
                let ghost old_w = w as int;
                assert forall|k: int| 0 <= k < i + 1 implies !#[trigger] precedes(
                    self.policy,
                    self.items@[i as int],
                    self.items@[k],
                ) by {
                    lemma_precedes_order(self.policy, self.items@[k], self.items@[old_w], self.items@[i as int]);
                    lemma_precedes_order(self.policy, self.items@[i as int], self.items@[k], self.items@[old_w]);
                }
                w = i;
            }
            i = i + 1;
        }
        assert(is_worst(self.policy, self.items@, w as int));
        let ghost olds = self.items@;
        let ghost worst = olds[w as int];
        let ghost p = self.policy;
        if self.policy.precedes(&item, &self.items[w]) {
            self.items.set(w, item);
            proof {
                let items = self.items@;
                assert(items[w as int] == item);
                assert(all[all.len() - 1] == item);
                assert forall|i: int| 0 <= i < items.len() implies all.contains(#[trigger] items[i]) by {
                    if i != w {
                        assert(olds[i] == items[i]);
                        let m = choose|m: int| 0 <= m < before.offered@.len() && before.offered@[m] == items[i];
                        assert(all[m] == items[i]);
                    }
                }
                assert forall|m: int| 0 <= m < all.len() implies items.contains(#[trigger] all[m]) || (
                items.len() == self.limit && forall|i: int|
                    0 <= i < items.len() ==> !#[trigger] precedes(p, all[m], items[i])) by {
                    if m < all.len() - 1 {
                        let y = all[m];
                        assert(before.offered@[m] == y);
                        if olds.contains(y) {
                            let j = choose|j: int| 0 <= j < olds.len() && olds[j] == y;
                            if j != w {
                                assert(items[j] == y);
                            } else {
                                assert forall|i: int| 0 <= i < items.len() implies !#[trigger] precedes(p, y, items[i]) by {
                                    if i == w {
                                        lemma_precedes_order(p, item, worst, item);
                                    } else {
                                        assert(items[i] == olds[i]);
                                        assert(!precedes(p, worst, olds[i]));
                                    }
                                }
                            }
                        } else {
                            assert forall|i: int| 0 <= i < items.len() implies !#[trigger] precedes(p, y, items[i]) by {
                                if i == w {
                                    assert(!precedes(p, y, olds[w as int]));
                                    lemma_precedes_order(p, y, item, worst);
                                } else {
                                    assert(items[i] == olds[i]);
                                }
                            }
                        }
                    } else {
                        assert(items.contains(items[w as int]));
                    }
                }
            }
        } else {
            proof {
                let items = self.items@;
                assert forall|i: int| 0 <= i < items.len() implies all.contains(#[trigger] items[i]) by {
                    let m = choose|m: int| 0 <= m < before.offered@.len() && before.offered@[m] == items[i];
                    assert(all[m] == items[i]);
                }
                assert forall|m: int| 0 <= m < all.len() implies items.contains(#[trigger] all[m]) || (
                items.len() == self.limit && forall|i: int|
                    0 <= i < items.len() ==> !#[trigger] precedes(p, all[m], items[i])) by {
                    if m < all.len() - 1 {
                        assert(before.offered@[m] == all[m]);
                    } else {
                        assert(all[m] == item);
                        assert forall|i: int| 0 <= i < items.len() implies !#[trigger] precedes(p, item, items[i]) by {
                            assert(!precedes(p, worst, items[i]));
                            lemma_precedes_order(p, items[i], worst, item);
                        }
                    }
                }
            }
        }
    }

    /// Drains the container into its entries, in no particular order.
    pub fn into_vec(self) -> (r: Vec<ScoredDoc>)
        ensures
            r@ == self.spec_items(),
    {
        self.items
    }
}

} // verus!
