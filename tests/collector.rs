use tique::collector::{CollectionResult, TopCollector, TopSegmentCollector};
use tique::condition::{CheckCondition, ResumeAfter};
use tique::order::{DocAddress, Policy, Score};
use tique::topk::TopK;

fn score(x: f32) -> Score {
    Score::from_bits(x.to_bits()).unwrap()
}

fn float(s: Score) -> f32 {
    f32::from_bits(s.to_bits())
}

fn addr(segment_id: u32, doc_id: u32) -> DocAddress {
    DocAddress { segment_id, doc_id }
}

struct JustOdds;

impl CheckCondition for JustOdds {
    fn spec_check(&self, _segment_id: u32, doc_id: u32, _score: Score) -> bool {
        doc_id % 2 == 1
    }

    fn check(&self, _segment_id: u32, doc_id: u32, _score: Score) -> bool {
        doc_id % 2 == 1
    }
}

fn asc_collector<C: CheckCondition>(limit: usize, condition: C) -> TopSegmentCollector<C> {
    TopSegmentCollector::new(0, TopK::new(Policy::Ascending, limit), condition)
}

#[test]
fn condition_is_checked() {
    const LIMIT: usize = 4;

    let mut nil_collector = asc_collector(LIMIT, false);
    let mut top_collector = asc_collector(LIMIT, true);
    let mut just_odds = asc_collector(LIMIT, JustOdds);

    for i in 0..4 {
        nil_collector.collect(i, score(420.0));
        top_collector.collect(i, score(420.0));
        just_odds.collect(i, score(420.0));
    }

    assert_eq!(0, nil_collector.harvest().items.len());
    assert_eq!(4, top_collector.harvest().items.len());

    let result = just_odds.harvest();
    assert_eq!(4, result.total);
    assert_eq!(2, result.items.len());
    for (s, doc) in result.items {
        assert!(JustOdds.check(doc.segment_id, doc.doc_id, s));
    }
}

#[test]
fn collection_with_a_marker_smoke() {
    // Doc id=4 on segment=0 had score=0.5
    let marker = ResumeAfter::new(Policy::Descending, score(0.5), addr(0, 4));
    let mut collector = TopSegmentCollector::new(0, TopK::new(Policy::Descending, 3), marker);

    // Every doc with a higher score has appeared already
    collector.collect(7, score(0.6));
    collector.collect(5, score(0.7));
    // Docs with the same score, but lower id too
    collector.collect(3, score(0.5));
    collector.collect(2, score(0.5));
    // And, of course, the same doc should not be collected
    collector.collect(4, score(0.5));
    // Lower scores are in
    collector.collect(1, score(0.0));
    // Same score but higher doc, too
    collector.collect(6, score(0.5));

    let result = collector.harvest();
    assert_eq!(7, result.total);
    assert_eq!(2, result.visited);
    assert_eq!(2, result.items.len());
    let mut docs: Vec<(u32, f32)> = result.items.iter().map(|(s, a)| (a.doc_id, float(*s))).collect();
    docs.sort_by_key(|d| d.0);
    assert_eq!(vec![(1, 0.0), (6, 0.5)], docs);
}

fn run(policy: Policy, limit: usize, segments: &[Vec<(u32, f32)>]) -> CollectionResult {
    let collector = TopCollector::new(limit, policy, true);
    let mut fruits = Vec::new();
    for (sid, docs) in segments.iter().enumerate() {
        let mut seg = collector.for_segment(sid as u32);
        for (doc, s) in docs {
            seg.collect(*doc, score(*s));
        }
        fruits.push(seg.harvest());
    }
    collector.merge_fruits(fruits)
}

#[test]
fn counts_every_collect_and_every_acceptance() {
    let mut c = asc_collector(2, JustOdds);
    for i in 0..9 {
        c.collect(i, score(i as f32));
    }
    let r = c.harvest();
    assert_eq!(9, r.total);
    assert_eq!(4, r.visited);
    assert!(r.items.len() <= 2);
}

#[test]
fn container_keeps_the_best_and_ties_do_not_evict() {
    let mut k = TopK::new(Policy::Descending, 2);
    k.visit((score(0.3), addr(0, 1)));
    k.visit((score(0.9), addr(0, 2)));
    k.visit((score(0.5), addr(0, 3)));
    // Same score as the worst kept entry, but a later address: not better.
    k.visit((score(0.5), addr(0, 4)));
    let mut got: Vec<u32> = k.into_vec().iter().map(|(_, a)| a.doc_id).collect();
    got.sort();
    assert_eq!(vec![2, 3], got);
}

#[test]
fn merge_orders_across_segments_and_sums_counters() {
    let segments = vec![
        vec![(0u32, 0.2f32), (1, 0.9), (2, 0.5)],
        vec![(0u32, 0.7f32), (1, 0.5)],
        vec![],
    ];
    let r = run(Policy::Descending, 4, &segments);
    assert_eq!(5, r.total);
    assert_eq!(5, r.visited);
    let got: Vec<(u32, u32)> = r.items.iter().map(|(_, a)| (a.segment_id, a.doc_id)).collect();
    // Equal scores fall back to the address, ascending.
    assert_eq!(vec![(0, 1), (1, 0), (0, 2), (1, 1)], got);

    let mut reversed = segments.clone();
    reversed.reverse();
    let r2 = run(Policy::Descending, 4, &reversed);
    // Segment ids follow the order given, so compare the scores.
    let a: Vec<f32> = r.items.iter().map(|(s, _)| float(*s)).collect();
    let b: Vec<f32> = r2.items.iter().map(|(s, _)| float(*s)).collect();
    assert_eq!(a, b);
}

#[test]
fn merge_is_independent_of_fruit_order() {
    let make = |items: Vec<(f32, u32, u32)>, total: usize| CollectionResult {
        total,
        visited: total,
        items: items.into_iter().map(|(s, sid, d)| (score(s), addr(sid, d))).collect(),
    };
    let collector = TopCollector::new(3, Policy::Ascending, true);
    let f = || vec![make(vec![(0.4, 0, 1), (0.1, 0, 2)], 5), make(vec![(0.4, 1, 0), (0.2, 1, 3)], 7)];
    let mut g = f();
    g.reverse();
    let a = collector.merge_fruits(f());
    let b = collector.merge_fruits(g);
    assert_eq!(a.items, b.items);
    assert_eq!(12, a.total);
    assert_eq!(
        vec![(score(0.1), addr(0, 2)), (score(0.2), addr(1, 3)), (score(0.4), addr(0, 1))],
        a.items
    );
}

#[test]
fn ascending_and_descending_reverse_each_other() {
    let segments = vec![vec![(0u32, 1.5f32), (1, -2.0), (2, 0.25)], vec![(0u32, 3.0f32)]];
    let asc = run(Policy::Ascending, 10, &segments);
    let desc = run(Policy::Descending, 10, &segments);
    let mut a: Vec<f32> = asc.items.iter().map(|(s, _)| float(*s)).collect();
    let d: Vec<f32> = desc.items.iter().map(|(s, _)| float(*s)).collect();
    assert_eq!(vec![-2.0, 0.25, 1.5, 3.0], a);
    a.reverse();
    assert_eq!(a, d);
}

#[test]
fn pages_after_a_marker_cover_everything_once() {
    let segments = vec![
        vec![(0u32, 0.5f32), (1, 0.5), (2, 0.9), (3, 0.1)],
        vec![(0u32, 0.5f32), (1, 0.7), (2, 0.3)],
    ];
    let full = run(Policy::Descending, 100, &segments);
    let mut pages: Vec<(Score, DocAddress)> = Vec::new();
    let mut marker: Option<(Score, DocAddress)> = None;
    loop {
        let collector_page = |policy: Policy| -> CollectionResult {
            let mut fruits = Vec::new();
            for (sid, docs) in segments.iter().enumerate() {
                let topk = TopK::new(policy, 2);
                let fruit = match marker {
                    None => {
                        let mut seg = TopSegmentCollector::new(sid as u32, topk, true);
                        for (doc, s) in docs {
                            seg.collect(*doc, score(*s));
                        }
                        seg.harvest()
                    }
                    Some((ms, ma)) => {
                        let cond = ResumeAfter::new(policy, ms, ma);
                        let mut seg = TopSegmentCollector::new(sid as u32, topk, cond);
                        for (doc, s) in docs {
                            seg.collect(*doc, score(*s));
                        }
                        seg.harvest()
                    }
                };
                fruits.push(fruit);
            }
            policy.merge_many(2, fruits)
        };
        let page = collector_page(Policy::Descending);
        if page.items.is_empty() {
            break;
        }
        marker = page.items.last().copied();
        pages.extend(page.items);
    }
    assert_eq!(full.items, pages);
    assert_eq!(7, pages.len());
}

#[test]
fn non_finite_scores_are_rejected_and_zeros_agree() {
    assert!(Score::from_bits(f32::NAN.to_bits()).is_none());
    assert!(Score::from_bits(f32::INFINITY.to_bits()).is_none());
    assert!(Score::from_bits(f32::NEG_INFINITY.to_bits()).is_none());
    assert_eq!(score(0.0), score(-0.0));
    assert!(score(-1.0).key < score(-0.5).key);
    assert!(score(-0.5).key < score(0.0).key);
    assert!(score(0.0).key < score(1e-30).key);
    assert!(score(2.0).key < score(3.0).key);
    assert_eq!(0x8000_0000, score(0.0).key);
    assert_eq!(1.25f32, float(score(1.25)));
    assert_eq!(-7.5f32, float(score(-7.5)));
    assert_eq!(0u32, score(-0.0).to_bits());
}

#[test]
fn collector_reports_scoring() {
    let c = TopCollector::new(1, Policy::Ascending, false);
    assert!(c.requires_scoring());
    let mut seg = c.for_segment(3);
    seg.collect(1, score(1.0));
    let r = seg.harvest();
    assert_eq!((1, 0, 0), (r.total, r.visited, r.items.len()));
}
