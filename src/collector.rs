use vstd::prelude::*;

use crate::condition::{CheckCondition, ConditionForSegment};
use crate::order::{lemma_precedes_order, precedes, DocAddress, Policy, Score, ScoredDoc};
use crate::topk::{is_top, is_worst, min, visited_with, TopK};

verus! {

/// What a segment, or a merge of segments, hands back.
pub struct CollectionResult {
    /// Documents observed.
    pub total: usize,
    /// Documents that passed the condition.
    pub visited: usize,
    /// The retained entries: unordered from a segment, sorted once merged.
    pub items: Vec<ScoredDoc>,
}

/// How many of `s` are `true`.
pub open spec fn count_true(s: Seq<bool>) -> nat
    decreases s.len(),
{
    if s.len() == 0 {
        0
    } else {
        count_true(s.drop_last()) + if s.last() {
            1nat
        } else {
            0nat
        }
    }
}

/// `s` is in the order of `p` (equal entries may sit side by side).
pub open spec fn sorted_by(p: Policy, s: Seq<ScoredDoc>) -> bool {
    forall|i: int, j: int| 0 <= i < j < s.len() ==> !#[trigger] precedes(p, s[j], s[i])
}

/// The entries of all fruits, one fruit after the other.
pub open spec fn all_items(fruits: Seq<CollectionResult>) -> Seq<ScoredDoc>
    decreases fruits.len(),
{
    if fruits.len() == 0 {
        Seq::empty()
    } else {
        all_items(fruits.drop_last()) + fruits.last().items@
    }
}

pub open spec fn sum_total(fruits: Seq<CollectionResult>) -> nat
    decreases fruits.len(),
{
    if fruits.len() == 0 {
        0
    } else {
        sum_total(fruits.drop_last()) + fruits.last().total as nat
    }
}

pub open spec fn sum_visited(fruits: Seq<CollectionResult>) -> nat
    decreases fruits.len(),
{
    if fruits.len() == 0 {
        0
    } else {
        sum_visited(fruits.drop_last()) + fruits.last().visited as nat
    }
}

proof fn lemma_count_true_bound(s: Seq<bool>)
    ensures
        count_true(s) <= s.len(),
    decreases s.len(),
{
    if s.len() > 0 {
        lemma_count_true_bound(s.drop_last());
    }
}

proof fn lemma_prefix_sums(fruits: Seq<CollectionResult>, i: int)
    requires
        0 <= i <= fruits.len(),
    ensures
        sum_total(fruits.subrange(0, i)) <= sum_total(fruits),
        sum_visited(fruits.subrange(0, i)) <= sum_visited(fruits),
    decreases fruits.len(),
{
    if i < fruits.len() {
        assert(fruits.drop_last().subrange(0, i) =~= fruits.subrange(0, i));
        lemma_prefix_sums(fruits.drop_last(), i);
    } else {
        assert(fruits.subrange(0, i) =~= fruits);
    }
}

/// What `Policy::merge_many` promises of the entries it returns for
/// `fruits`.
pub open spec fn merged_items(p: Policy, limit: nat, fruits: Seq<CollectionResult>, r: Seq<ScoredDoc>) -> bool {
    &&& sorted_by(p, r)
    &&& r.len() == min(limit, all_items(fruits).len())
    &&& is_top(p, limit, all_items(fruits), r)
    &&& all_items(fruits).no_duplicates() ==> r.no_duplicates()
}

proof fn lemma_no_earlier_difference(
    p: Policy,
    limit: nat,
    a: Seq<ScoredDoc>,
    b: Seq<ScoredDoc>,
    r1: Seq<ScoredDoc>,
    r2: Seq<ScoredDoc>,
    i: int,
)
    requires
        a.to_set() == b.to_set(),
        sorted_by(p, r2),
        is_top(p, limit, a, r1),
        is_top(p, limit, b, r2),
        r1.no_duplicates(),
        0 <= i < r1.len(),
        i < r2.len(),
        forall|j: int| 0 <= j < i ==> r1[j] == r2[j],
    ensures
        !precedes(p, r1[i], r2[i]),
{
    let x = r1[i];
    if precedes(p, x, r2[i]) {
        assert(a.contains(x));
        assert(a.to_set().contains(x));
        assert(b.contains(x));
        let m = choose|m: int| 0 <= m < b.len() && b[m] == x;
        assert(r2.contains(b[m]) || (r2.len() == limit && forall|k: int|
            0 <= k < r2.len() ==> !#[trigger] precedes(p, b[m], r2[k])));
        if r2.contains(x) {
            let j = choose|j: int| 0 <= j < r2.len() && r2[j] == x;
            if j < i {
                assert(r1[j] == x);
            } else if j == i {
                lemma_precedes_order(p, x, x, x);
            } else {
                assert(!precedes(p, r2[j], r2[i]));
            }
        } else {
            assert(!precedes(p, b[m], r2[i]));
        }
    }
}

proof fn lemma_equal_prefix(
    p: Policy,
    limit: nat,
    a: Seq<ScoredDoc>,
    b: Seq<ScoredDoc>,
    r1: Seq<ScoredDoc>,
    r2: Seq<ScoredDoc>,
    i: int,
)
    requires
        a.to_set() == b.to_set(),
        sorted_by(p, r1),
        sorted_by(p, r2),
        is_top(p, limit, a, r1),
        is_top(p, limit, b, r2),
        r1.no_duplicates(),
        r2.no_duplicates(),
        r1.len() == r2.len(),
        0 <= i <= r1.len(),
    ensures
        forall|j: int| 0 <= j < i ==> r1[j] == r2[j],
    decreases i,
{
    if i > 0 {
        lemma_equal_prefix(p, limit, a, b, r1, r2, i - 1);
        lemma_no_earlier_difference(p, limit, a, b, r1, r2, i - 1);
        assert forall|j: int| 0 <= j < i - 1 implies r2[j] == r1[j] by {}
        lemma_no_earlier_difference(p, limit, b, a, r2, r1, i - 1);
        lemma_precedes_order(p, r1[i - 1], r2[i - 1], r1[i - 1]);
    }
}

/// Merging does not depend on the order of the fruits: two merges whose
/// fruits hold the same entries, each entry once, return the same entries
/// in the same order.
pub proof fn lemma_merge_order_independent(
    p: Policy,
    limit: nat,
    fruits1: Seq<CollectionResult>,
    fruits2: Seq<CollectionResult>,
    r1: Seq<ScoredDoc>,
    r2: Seq<ScoredDoc>,
)
    requires
        all_items(fruits1).no_duplicates(),
        all_items(fruits2).no_duplicates(),
        all_items(fruits1).to_set() == all_items(fruits2).to_set(),
        merged_items(p, limit, fruits1, r1),
        merged_items(p, limit, fruits2, r2),
    ensures
        r1 == r2,
{
    let a = all_items(fruits1);
    let b = all_items(fruits2);
    a.unique_seq_to_set();
    b.unique_seq_to_set();
    lemma_equal_prefix(p, limit, a, b, r1, r2, r1.len() as int);
    assert(r1 =~= r2);
}

proof fn lemma_sums_remove(fruits: Seq<CollectionResult>, i: int)
    requires
        0 <= i < fruits.len(),
    ensures
        sum_total(fruits) == sum_total(fruits.remove(i)) + fruits[i].total,
        sum_visited(fruits) == sum_visited(fruits.remove(i)) + fruits[i].visited,
    decreases fruits.len(),
{
    let r = fruits.remove(i);
    if i == fruits.len() - 1 {
        assert(r =~= fruits.drop_last());
    } else {
        lemma_sums_remove(fruits.drop_last(), i);
        assert(fruits.drop_last().remove(i) =~= r.drop_last());
        assert(r.last() == fruits.last());
    }
}

/// Merging counts the same documents whatever the order of the fruits:
/// fruits that are a reordering of one another sum to the same `total` and
/// `visited`.
pub proof fn lemma_merge_counts_order_independent(
    fruits1: Seq<CollectionResult>,
    fruits2: Seq<CollectionResult>,
)
    requires
        fruits1.to_multiset() == fruits2.to_multiset(),
    ensures
        sum_total(fruits1) == sum_total(fruits2),
        sum_visited(fruits1) == sum_visited(fruits2),
    decreases fruits1.len(),
{
    fruits1.to_multiset_ensures();
    fruits2.to_multiset_ensures();
    if fruits1.len() == 0 {
        assert(fruits2 =~= Seq::<CollectionResult>::empty());
    } else {
        let n = fruits1.len() - 1;
        let x = fruits1.last();
        assert(fruits1.contains(fruits1[n]));
        assert(fruits1.to_multiset().count(x) > 0);
        assert(fruits2.to_multiset().count(x) > 0);
        assert(fruits2.contains(x));
        let j = choose|j: int| 0 <= j < fruits2.len() && fruits2[j] == x;
        assert(fruits1.remove(n) =~= fruits1.drop_last());
        let rest1 = fruits1.drop_last();
        let rest2 = fruits2.remove(j);
        assert(rest1.to_multiset() == rest2.to_multiset());
        lemma_merge_counts_order_independent(rest1, rest2);
        lemma_sums_remove(fruits2, j);
    }
}

/// The score keys of `s` never decrease.
pub open spec fn keys_ascend(s: Seq<ScoredDoc>) -> bool {
    forall|i: int, j: int| 0 <= i < j < s.len() ==> #[trigger] s[i].0.key <= #[trigger] s[j].0.key
}

/// A merge whose limit is not below the number of entries returns each of
/// them.
proof fn lemma_merge_keeps_all(p: Policy, limit: nat, fruits: Seq<CollectionResult>, r: Seq<ScoredDoc>)
    requires
        all_items(fruits).no_duplicates(),
        all_items(fruits).len() <= limit,
        merged_items(p, limit, fruits, r),
    ensures
        r.to_set() == all_items(fruits).to_set(),
        r.len() == all_items(fruits).len(),
        r.no_duplicates(),
{
    let all = all_items(fruits);
    all.unique_seq_to_set();
    r.unique_seq_to_set();
    vstd::seq_lib::seq_to_set_is_finite(all);
    vstd::seq_lib::seq_to_set_is_finite(r);
    assert(r.to_set().subset_of(all.to_set())) by {
        assert forall|x: ScoredDoc| r.to_set().contains(x) implies all.to_set().contains(x) by {
            let i = choose|i: int| 0 <= i < r.len() && r[i] == x;
            assert(all.contains(r[i]));
        }
    }
    vstd::set_lib::lemma_subset_equality(r.to_set(), all.to_set());
}

/// Two key-ordered sequences of the same distinct entries agree on the key
/// at every position.
proof fn lemma_same_keys(s: Seq<ScoredDoc>, t: Seq<ScoredDoc>, i: int)
    requires
        s.no_duplicates(),
        t.no_duplicates(),
        s.to_set() == t.to_set(),
        s.len() == t.len(),
        keys_ascend(s),
        keys_ascend(t),
        0 <= i < s.len(),
    ensures
        s[i].0.key <= t[i].0.key,
{
    if s[i].0.key > t[i].0.key {
        let k = t[i].0.key;
        let below = s.to_set().filter(|e: ScoredDoc| e.0.key <= k);
        let head_t = t.subrange(0, i + 1);
        let head_s = s.subrange(0, i);
        assert(head_t.no_duplicates());
        assert(head_s.no_duplicates());
        head_t.unique_seq_to_set();
        head_s.unique_seq_to_set();
        vstd::seq_lib::seq_to_set_is_finite(s);
        vstd::seq_lib::seq_to_set_is_finite(head_s);
        assert(head_t.to_set().subset_of(below)) by {
            assert forall|x: ScoredDoc| head_t.to_set().contains(x) implies below.contains(x) by {
                let j = choose|j: int| 0 <= j < head_t.len() && head_t[j] == x;
                assert(t[j] == x);
                assert(t.to_set().contains(t[j]));
                if j < i {
                    assert(t[j].0.key <= t[i].0.key);
                }
            }
        }
        assert(below.subset_of(head_s.to_set())) by {
            assert forall|x: ScoredDoc| below.contains(x) implies head_s.to_set().contains(x) by {
                assert(s.to_set().contains(x));
                let j = choose|j: int| 0 <= j < s.len() && s[j] == x;
                if j >= i {
                    if j > i {
                        assert(s[i].0.key <= s[j].0.key);
                    }
                } else {
                    assert(head_s[j] == x);
                }
            }
        }
        s.to_set().lemma_len_filter(|e: ScoredDoc| e.0.key <= k);
        vstd::set_lib::lemma_len_subset(head_t.to_set(), below);
        vstd::set_lib::lemma_len_subset(below, head_s.to_set());
    }
}

/// Ranking the same distinct entries both ways, with a limit that keeps
/// them all, gives score sequences that are each other's reverse.
pub proof fn lemma_ascending_reverses_descending(
    limit: nat,
    fruits_asc: Seq<CollectionResult>,
    fruits_desc: Seq<CollectionResult>,
    asc: Seq<ScoredDoc>,
    desc: Seq<ScoredDoc>,
)
    requires
        all_items(fruits_asc).no_duplicates(),
        all_items(fruits_desc).no_duplicates(),
        all_items(fruits_asc).to_set() == all_items(fruits_desc).to_set(),
        all_items(fruits_asc).len() <= limit,
        merged_items(Policy::Ascending, limit, fruits_asc, asc),
        merged_items(Policy::Descending, limit, fruits_desc, desc),
    ensures
        asc.len() == desc.len(),
        forall|i: int| 0 <= i < asc.len() ==> #[trigger] asc[i].0 == desc[desc.len() - 1 - i].0,
{
    all_items(fruits_asc).unique_seq_to_set();
    all_items(fruits_desc).unique_seq_to_set();
    lemma_merge_keeps_all(Policy::Ascending, limit, fruits_asc, asc);
    lemma_merge_keeps_all(Policy::Descending, limit, fruits_desc, desc);
    let rev = desc.reverse();
    assert(keys_ascend(asc)) by {
        assert forall|i: int, j: int| 0 <= i < j < asc.len() implies #[trigger] asc[i].0.key <= #[trigger] asc[j].0.key by {
            assert(!precedes(Policy::Ascending, asc[j], asc[i]));
        }
    }
    assert(keys_ascend(rev)) by {
        assert forall|i: int, j: int| 0 <= i < j < rev.len() implies #[trigger] rev[i].0.key <= #[trigger] rev[j].0.key by {
            let n = desc.len() as int;
            assert(!precedes(Policy::Descending, desc[n - 1 - i], desc[n - 1 - j]));
        }
    }
    assert(rev.no_duplicates()) by {
        assert forall|i: int, j: int| 0 <= i < rev.len() && 0 <= j < rev.len() && i != j implies rev[i] != rev[j] by {
            let n = desc.len() as int;
            assert(desc[n - 1 - i] != desc[n - 1 - j]);
        }
    }
    assert(rev.to_set() == desc.to_set()) by {
        assert forall|x: ScoredDoc| rev.to_set().contains(x) <==> desc.to_set().contains(x) by {
            let n = desc.len() as int;
            if rev.to_set().contains(x) {
                let i = choose|i: int| 0 <= i < rev.len() && rev[i] == x;
                assert(desc[n - 1 - i] == x);
            }
            if desc.to_set().contains(x) {
                let i = choose|i: int| 0 <= i < desc.len() && desc[i] == x;
                assert(rev[n - 1 - i] == x);
            }
        }
        assert(rev.to_set() =~= desc.to_set());
    }
    assert forall|i: int| 0 <= i < asc.len() implies #[trigger] asc[i].0 == desc[desc.len() - 1 - i].0 by {
        lemma_same_keys(asc, rev, i);
        lemma_same_keys(rev, asc, i);
        assert(rev[i] == desc[desc.len() - 1 - i]);
    }
}

/// The entries, in order, of the documents in `seen` that `condition`
/// accepts on segment `segment_id`.
pub open spec fn accepted_entries<C: CheckCondition>(
    condition: C,
    segment_id: u32,
    seen: Seq<(u32, Score)>,
) -> Seq<ScoredDoc>
    decreases seen.len(),
{
    if seen.len() == 0 {
        Seq::empty()
    } else {
        let rest = accepted_entries(condition, segment_id, seen.drop_last());
        let (doc_id, score) = seen.last();
        if condition.spec_check(segment_id, doc_id, score) {
            rest.push((score, DocAddress { segment_id, doc_id }))
        } else {
            rest
        }
    }
}

/// Collects the documents of one segment.
pub struct TopSegmentCollector<C> {
    total: usize,
    visited: usize,
    segment_id: u32,
    topk: TopK,
    condition: C,
    /// The documents observed, in order.
    seen: Ghost<Seq<(u32, Score)>>,
    /// What the condition answered, one entry per observed document.
    decisions: Ghost<Seq<bool>>,
}

impl<C: CheckCondition> TopSegmentCollector<C> {
    pub closed spec fn spec_total(&self) -> nat {
        self.total as nat
    }

    pub closed spec fn spec_visited(&self) -> nat {
        self.visited as nat
    }

    pub closed spec fn spec_segment_id(&self) -> u32 {
        self.segment_id
    }

    pub closed spec fn spec_topk(&self) -> TopK {
        self.topk
    }

    pub closed spec fn spec_condition(&self) -> C {
        self.condition
    }

    /// The `(doc_id, score)` pairs observed, in order.
    pub closed spec fn spec_seen(&self) -> Seq<(u32, Score)> {
        self.seen@
    }

    pub closed spec fn spec_decisions(&self) -> Seq<bool> {
        self.decisions@
    }

    /// The counters agree with the condition's answers and the container,
    /// and every kept entry carries this segment's id.
    pub closed spec fn wf(&self) -> bool {
        &&& self.topk.wf()
        &&& self.total == self.seen@.len()
        &&& self.decisions@.len() == self.seen@.len()
        &&& forall|i: int|
            0 <= i < self.seen@.len() ==> #[trigger] self.decisions@[i] == self.condition.spec_check(
                self.segment_id,
                self.seen@[i].0,
                self.seen@[i].1,
            )
        &&& self.visited == count_true(self.decisions@)
        &&& self.topk.spec_visits() == self.visited
        &&& self.topk.spec_offered() == accepted_entries(self.condition, self.segment_id, self.seen@)
        &&& forall|i: int|
            0 <= i < self.topk.spec_items().len() ==> (#[trigger] self.topk.spec_items()[i]).1.segment_id
                == self.segment_id
    }

    /// A collector for segment `segment_id`, feeding `topk` with what
    /// passes `condition`.
    pub fn new(segment_id: u32, topk: TopK, condition: C) -> (r: Self)
        requires
            topk.wf(),
            topk.spec_visits() == 0,
        ensures
            r.wf(),
            r.spec_total() == 0,
            r.spec_visited() == 0,
            r.spec_segment_id() == segment_id,
            r.spec_topk() == topk,
            r.spec_condition() == condition,
            r.spec_seen() == Seq::<(u32, Score)>::empty(),
            r.spec_decisions() == Seq::<bool>::empty(),
    {
        proof {
            topk.lemma_bounds();
            assert(topk.spec_offered() =~= Seq::<ScoredDoc>::empty());
        }
        TopSegmentCollector {
            total: 0,
            visited: 0,
            segment_id,
            topk,
            condition,
            seen: Ghost(Seq::empty()),
            decisions: Ghost(Seq::empty()),
        }
    }

    /// How many documents were observed.
    pub fn total(&self) -> (r: usize)
        ensures
            r == self.spec_total(),
    {
        self.total
    }

    /// Observes one document: it is counted, the condition is asked about
    /// it, and when it accepts, the document is counted as visited and
    /// offered to the container.
    pub fn collect(&mut self, doc: u32, score: Score)
        requires
            old(self).wf(),
            old(self).spec_total() < usize::MAX,
        ensures
            final(self).wf(),
            final(self).spec_segment_id() == old(self).spec_segment_id(),
            final(self).spec_condition() == old(self).spec_condition(),
            final(self).spec_total() == old(self).spec_total() + 1,
            final(self).spec_seen() == old(self).spec_seen().push((doc, score)),
            final(self).spec_decisions() == old(self).spec_decisions().push(
                old(self).spec_condition().spec_check(old(self).spec_segment_id(), doc, score),
            ),
            old(self).spec_condition().spec_check(old(self).spec_segment_id(), doc, score) ==> {
                &&& final(self).spec_visited() == old(self).spec_visited() + 1
                &&& visited_with(
                    old(self).spec_topk(),
                    final(self).spec_topk(),
                    (score, DocAddress { segment_id: old(self).spec_segment_id(), doc_id: doc }),
                )
            },
            !old(self).spec_condition().spec_check(old(self).spec_segment_id(), doc, score) ==> {
                &&& final(self).spec_visited() == old(self).spec_visited()
                &&& final(self).spec_topk() == old(self).spec_topk()
            },
    {
        proof {
            self.topk.lemma_bounds();
            lemma_count_true_bound(self.decisions@);
        }
        let ghost prior = *self;
        self.total = self.total + 1;
        let accepted = self.condition.check(self.segment_id, doc, score);
        self.seen = Ghost(self.seen@.push((doc, score)));
        assert(self.seen@.drop_last() =~= prior.seen@);
        self.decisions = Ghost(self.decisions@.push(accepted));
        assert(self.decisions@.drop_last() =~= prior.decisions@);
        if accepted {
            self.visited = self.visited + 1;
            let item = (score, DocAddress { segment_id: self.segment_id, doc_id: doc });
            self.topk.visit(item);
            proof {
                let items = self.topk.spec_items();
                let old_items = prior.topk.spec_items();
                assert forall|i: int| 0 <= i < items.len() implies (#[trigger] items[i]).1.segment_id
                    == self.segment_id by {
                    if old_items.len() < prior.topk.spec_limit() {
                        if i < old_items.len() {
                            assert(items[i] == old_items[i]);
                        }
                    } else {
                        let w = choose|w: int|
                            #![trigger old_items[w]]
                            is_worst(prior.topk.spec_policy(), old_items, w) && (if precedes(
                                prior.topk.spec_policy(),
                                item,
                                old_items[w],
                            ) {
                                items == old_items.update(w, item)
                            } else {
                                items == old_items
                            });
                        if i != w {
                            assert(items[i] == old_items[i]);
                        }
                    }
                }
            }
        }
        assert forall|i: int| 0 <= i < self.seen@.len() implies #[trigger] self.decisions@[i]
            == self.condition.spec_check(self.segment_id, self.seen@[i].0, self.seen@[i].1) by {
            if i < prior.seen@.len() {
                assert(prior.decisions@[i] == self.decisions@[i]);
            }
        }
    }

    /// Consumes the collector into its fruit; the entries stay unordered,
    /// as ordering happens once, at merge.
    pub fn harvest(self) -> (r: CollectionResult)
        requires
            self.wf(),
        ensures
            r.total == self.spec_total(),
            r.visited == self.spec_visited(),
            r.items@ == self.spec_topk().spec_items(),
            r.total == self.spec_seen().len(),
            self.spec_decisions().len() == self.spec_seen().len(),
            forall|i: int|
                0 <= i < self.spec_seen().len() ==> #[trigger] self.spec_decisions()[i]
                    == self.spec_condition().spec_check(
                    self.spec_segment_id(),
                    self.spec_seen()[i].0,
                    self.spec_seen()[i].1,
                ),
            r.visited == count_true(self.spec_decisions()),
            r.items.len() <= min(self.spec_topk().spec_limit(), r.visited as nat),
            r.visited == accepted_entries(self.spec_condition(), self.spec_segment_id(), self.spec_seen()).len(),
            r.items.len() == min(
                self.spec_topk().spec_limit(),
                accepted_entries(self.spec_condition(), self.spec_segment_id(), self.spec_seen()).len(),
            ),
            is_top(
                self.spec_topk().spec_policy(),
                self.spec_topk().spec_limit(),
                accepted_entries(self.spec_condition(), self.spec_segment_id(), self.spec_seen()),
                r.items@,
            ),
            forall|i: int| 0 <= i < r.items.len() ==> (#[trigger] r.items@[i]).1.segment_id == self.spec_segment_id(),
    {
        proof {
            self.topk.lemma_bounds();
        }
        CollectionResult { total: self.total, visited: self.visited, items: self.topk.into_vec() }
    }
}

impl Policy {
    /// Merges fruits: counters are summed, and the entries of all fruits
    /// are ordered by this policy and cut to the `limit` best.
    pub fn merge_many(&self, limit: usize, fruits: Vec<CollectionResult>) -> (r: CollectionResult)
        requires
            limit >= 1,
            sum_total(fruits@) <= usize::MAX,
            sum_visited(fruits@) <= usize::MAX,
        ensures
            r.total == sum_total(fruits@),
            r.visited == sum_visited(fruits@),
            merged_items(*self, limit as nat, fruits@, r.items@),
    {
        let mut total: usize = 0;
        let mut visited: usize = 0;
        let mut all: Vec<ScoredDoc> = Vec::new();
        let mut f: usize = 0;
        while f < fruits.len()
            invariant
                0 <= f <= fruits.len(),
                sum_total(fruits@) <= usize::MAX,
                sum_visited(fruits@) <= usize::MAX,
                total == sum_total(fruits@.subrange(0, f as int)),
                visited == sum_visited(fruits@.subrange(0, f as int)),
                all@ == all_items(fruits@.subrange(0, f as int)),
            decreases fruits.len() - f,
        {
            let ghost next = fruits@.subrange(0, f + 1);
            assert(next.drop_last() =~= fruits@.subrange(0, f as int));
            proof {
                lemma_prefix_sums(fruits@, f + 1);
            }
            total = total + fruits[f].total;
            visited = visited + fruits[f].visited;
            let items = &fruits[f].items;
            let ghost start = all@;
            let mut j: usize = 0;
            while j < items.len()
                invariant
                    0 <= j <= items.len(),
                    all@ == start + items@.subrange(0, j as int),
                decreases items.len() - j,
            {
                all.push(items[j]);
                j = j + 1;
                assert(all@ =~= start + items@.subrange(0, j as int));
            }
            assert(items@.subrange(0, j as int) =~= items@);
            f = f + 1;
        }
        assert(fruits@.subrange(0, f as int) =~= fruits@);
        let items = self.keep_best(limit, &all);
        CollectionResult { total, visited, items }
    }

    /// The `limit` best of `all`, in this policy's order.
    #[verifier::rlimit(50)]
    fn keep_best(&self, limit: usize, all: &Vec<ScoredDoc>) -> (r: Vec<ScoredDoc>)
        requires
            limit >= 1,
        ensures
            sorted_by(*self, r@),
            r.len() == min(limit as nat, all.len() as nat),
            is_top(*self, limit as nat, all@, r@),
            all@.no_duplicates() ==> r@.no_duplicates(),
    {
        let p = *self;
        let mut res: Vec<ScoredDoc> = Vec::new();
        let mut k: usize = 0;
        while k < all.len()
            invariant
                limit >= 1,
                k <= all.len(),
                res.len() == min(limit as nat, k as nat),
                sorted_by(p, res@),
                is_top(p, limit as nat, all@.subrange(0, k as int), res@),
                all@.no_duplicates() ==> res@.no_duplicates(),
            decreases all.len() - k,
        {
            let x = all[k];
            let ghost old_res = res@;
            let ghost prev = all@.subrange(0, k as int);
            let ghost next = all@.subrange(0, k + 1);
            assert(next =~= prev.push(x));
            if res.len() < limit || p.precedes(&x, &res[res.len() - 1]) {
                let mut pos: usize = 0;
                while pos < res.len() && !p.precedes(&x, &res[pos])
                    invariant
                        pos <= res.len(),
                        res@ == old_res,
                        forall|i: int| 0 <= i < pos ==> !#[trigger] precedes(p, x, res@[i]),
                    decreases res.len() - pos,
                {
                    pos = pos + 1;
                }
                proof {
                    if all@.no_duplicates() {
                        assert(!old_res.contains(x)) by {
                            if old_res.contains(x) {
                                let i0 = choose|i0: int| 0 <= i0 < old_res.len() && old_res[i0] == x;
                                assert(prev.contains(old_res[i0]));
                                let m = choose|m: int| 0 <= m < prev.len() && prev[m] == x;
                                assert(all@[m] == all@[k as int]);
                            }
                        }
                    }
                }
                res.insert(pos, x);
                let ghost ins = res@;
                assert(all@.no_duplicates() ==> ins.no_duplicates()) by {
                    if all@.no_duplicates() {
                        assert forall|i: int, j: int| 0 <= i < ins.len() && 0 <= j < ins.len() && i != j implies ins[i] != ins[j] by {
                            if i == pos {
                                assert(old_res.contains(ins[j]));
                            } else if j == pos {
                                assert(old_res.contains(ins[i]));
                            } else {
                                let i0 = if i < pos { i } else { i - 1 };
                                let j0 = if j < pos { j } else { j - 1 };
                                assert(old_res[i0] == ins[i] && old_res[j0] == ins[j]);
                            }
                        }
                    }
                }
                assert(sorted_by(p, ins)) by {
                    assert forall|i: int, j: int| 0 <= i < j < ins.len() implies !#[trigger] precedes(
                        p,
                        ins[j],
                        ins[i],
                    ) by {
                        if i < pos && j == pos {
                        } else if i == pos && j > pos {
                            lemma_precedes_order(p, ins[j], x, ins[pos + 1]);
                            if j > pos + 1 {
                                assert(!precedes(p, old_res[j - 1], old_res[pos as int]));
                            }
                        } else if i < pos && j > pos {
                            assert(!precedes(p, old_res[j - 1], old_res[i]));
                        } else if j < pos {
                            assert(!precedes(p, old_res[j], old_res[i]));
                        } else {
                            assert(!precedes(p, old_res[j - 1], old_res[i - 1]));
                        }
                    }
                }
                if res.len() > limit {
                    res.pop();
                    assert(all@.no_duplicates() ==> res@.no_duplicates()) by {
                        assert forall|i: int, j: int| 0 <= i < res@.len() && 0 <= j < res@.len() && i != j implies res@[i] == ins[i] && res@[j] == ins[j] by {}
                    }
                }
                proof {
                    let last = old_res.len() - 1;
                    assert forall|i: int| 0 <= i < res@.len() implies next.contains(#[trigger] res@[i]) by {
                        if i < pos {
                            assert(old_res[i] == res@[i]);
                            let m = choose|m: int| 0 <= m < prev.len() && prev[m] == old_res[i];
                            assert(next[m] == res@[i]);
                        } else if i == pos {
                            assert(next[k as int] == x);
                        } else {
                            assert(old_res[i - 1] == res@[i]);
                            let m = choose|m: int| 0 <= m < prev.len() && prev[m] == old_res[i - 1];
                            assert(next[m] == res@[i]);
                        }
                    }
                    assert forall|m: int| 0 <= m < next.len() implies res@.contains(#[trigger] next[m]) || (
                    res@.len() == limit && forall|i: int|
                        0 <= i < res@.len() ==> !#[trigger] precedes(p, next[m], res@[i])) by {
                        if m == k {
                            assert(res@[pos as int] == x);
                        } else {
                            assert(prev[m] == next[m]);
                            let y = next[m];
                            if old_res.contains(y) {
                                let i0 = choose|i0: int| 0 <= i0 < old_res.len() && old_res[i0] == y;
                                let i1 = if i0 < pos { i0 } else { i0 + 1 };
                                assert(ins[i1] == y);
                                if i1 < res@.len() {
                                    assert(res@[i1] == y);
                                } else {
                                    assert forall|i: int| 0 <= i < res@.len() implies !#[trigger] precedes(p, y, res@[i]) by {
                                        assert(ins[i] == res@[i]);
                                    }
                                }
                            } else {
                                assert forall|i: int| 0 <= i < res@.len() implies !#[trigger] precedes(p, y, res@[i]) by {
                                    if i == pos {
                                        lemma_precedes_order(p, y, x, old_res[last]);
                                    } else if i < pos {
                                        assert(res@[i] == old_res[i]);
                                    } else {
                                        assert(res@[i] == old_res[i - 1]);
                                    }
                                }
                            }
                        }
                    }
                }
            } else {
                proof {
                    let last = old_res.len() - 1;
                    assert forall|i: int| 0 <= i < res@.len() implies next.contains(#[trigger] res@[i]) by {
                        let m = choose|m: int| 0 <= m < prev.len() && prev[m] == res@[i];
                        assert(next[m] == res@[i]);
                    }
                    assert forall|m: int| 0 <= m < next.len() implies res@.contains(#[trigger] next[m]) || (
                    res@.len() == limit && forall|i: int|
                        0 <= i < res@.len() ==> !#[trigger] precedes(p, next[m], res@[i])) by {
                        if m == k {
                            assert forall|i: int| 0 <= i < res@.len() implies !#[trigger] precedes(p, x, res@[i]) by {
                                if i < last {
                                    assert(!precedes(p, res@[last], res@[i]));
                                }
                                lemma_precedes_order(p, res@[i], res@[last], x);
                            }
                        } else {
                            assert(prev[m] == next[m]);
                        }
                    }
                }
            }
            k = k + 1;
        }
        assert(all@.subrange(0, k as int) =~= all@);
        res
    }
}

/// Collects the best `limit` documents of a search, over all its
/// segments, among those that the factory's conditions accept.
pub struct TopCollector<CF> {
    limit: usize,
    policy: Policy,
    condition_factory: CF,
}

impl<CF: ConditionForSegment> TopCollector<CF> {
    pub closed spec fn spec_limit(&self) -> nat {
        self.limit as nat
    }

    pub closed spec fn spec_policy(&self) -> Policy {
        self.policy
    }

    pub closed spec fn spec_factory(&self) -> CF {
        self.condition_factory
    }

    /// A collector keeping at most `limit` documents, ranked by `policy`.
    pub fn new(limit: usize, policy: Policy, condition_factory: CF) -> (r: Self)
        requires
            limit >= 1,
        ensures
            r.spec_limit() == limit,
            r.spec_policy() == policy,
            r.spec_factory() == condition_factory,
    {
        TopCollector { limit, policy, condition_factory }
    }

    /// Ranking needs scores from the engine.
    pub fn requires_scoring(&self) -> (r: bool)
        ensures
            r,
    {
        true
    }

    /// A fresh collector for one segment, with its own container and the
    /// factory's condition for that segment.
    pub fn for_segment(&self, segment_id: u32) -> (r: TopSegmentCollector<CF::Type>)
        requires
            self.spec_limit() >= 1,
        ensures
            r.wf(),
            r.spec_total() == 0,
            r.spec_visited() == 0,
            r.spec_segment_id() == segment_id,
            r.spec_topk().spec_policy() == self.spec_policy(),
            r.spec_topk().spec_limit() == self.spec_limit(),
            r.spec_topk().spec_items() == Seq::<ScoredDoc>::empty(),
            r.spec_topk().spec_visits() == 0,
            r.spec_condition() == self.spec_factory().spec_for_segment(segment_id),
            r.spec_seen() == Seq::<(u32, Score)>::empty(),
            r.spec_decisions() == Seq::<bool>::empty(),
    {
        let topk = TopK::new(self.policy, self.limit);
        let condition = self.condition_factory.for_segment(segment_id);
        TopSegmentCollector::new(segment_id, topk, condition)
    }

    /// Merges the fruits of all segments: see `Policy::merge_many`.
    pub fn merge_fruits(&self, fruits: Vec<CollectionResult>) -> (r: CollectionResult)
        requires
            self.spec_limit() >= 1,
            sum_total(fruits@) <= usize::MAX,
            sum_visited(fruits@) <= usize::MAX,
        ensures
            r.total == sum_total(fruits@),
            r.visited == sum_visited(fruits@),
            merged_items(self.spec_policy(), self.spec_limit(), fruits@, r.items@),
    {
        self.policy.merge_many(self.limit, fruits)
    }
}

} // verus!
