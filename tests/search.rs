use tantivy::collector::{Collector, SegmentCollector};
use tantivy::query::TermQuery;
use tantivy::schema::{IndexRecordOption, Schema, TEXT};
use tantivy::{DocId, Index, SegmentOrdinal, SegmentReader, TantivyDocument, Term};

use tique::collector::{CollectionResult, TopCollector, TopSegmentCollector};
use tique::order::{Policy, Score};

/// Drives the library's collector from tantivy's searcher.
struct Top(TopCollector<bool>);

struct TopSegment(TopSegmentCollector<bool>);

struct Fruit(CollectionResult);

impl Collector for Top {
    type Fruit = Fruit;
    type Child = TopSegment;

    fn for_segment(&self, segment_local_id: SegmentOrdinal, _segment: &SegmentReader) -> tantivy::Result<TopSegment> {
        Ok(TopSegment(self.0.for_segment(segment_local_id)))
    }

    fn requires_scoring(&self) -> bool {
        self.0.requires_scoring()
    }

    fn merge_fruits(&self, segment_fruits: Vec<Fruit>) -> tantivy::Result<Fruit> {
        Ok(Fruit(self.0.merge_fruits(segment_fruits.into_iter().map(|f| f.0).collect())))
    }
}

impl SegmentCollector for TopSegment {
    type Fruit = Fruit;

    fn collect(&mut self, doc: DocId, score: tantivy::Score) {
        self.0.collect(doc, Score::from_bits(score.to_bits()).unwrap());
    }

    fn harvest(self) -> Fruit {
        Fruit(self.0.harvest())
    }
}

#[test]
fn collection_ordering_integration() -> tantivy::Result<()> {
    let mut builder = Schema::builder();
    let text_field = builder.add_text_field("text", TEXT);
    let index = Index::create_in_ram(builder.build());
    let mut writer = index.writer_with_num_threads::<TantivyDocument>(1, 15_000_000)?;

    let mut add_doc = |text: &str| -> tantivy::Result<()> {
        let mut doc = TantivyDocument::new();
        doc.add_text(text_field, text);
        writer.add_document(doc)?;
        Ok(())
    };

    const NUM_DOCS: usize = 3;
    add_doc("the first doc is simple")?;
    add_doc("the second doc is a bit larger")?;
    add_doc("and the third document is rubbish")?;
    writer.commit()?;

    let reader = index.reader()?;
    let searcher = reader.searcher();

    let collector_asc = Top(TopCollector::new(NUM_DOCS, Policy::Ascending, true));
    let collector_desc = Top(TopCollector::new(NUM_DOCS, Policy::Descending, true));

    // Query for "the", which matches all docs and yields
    // a distinct score for each
    let query = TermQuery::new(
        Term::from_field_text(text_field, "the"),
        IndexRecordOption::WithFreqsAndPositions,
    );
    let (asc, desc) = searcher.search(&query, &(collector_asc, collector_desc))?;

    assert_eq!(NUM_DOCS, asc.0.items.len());
    assert_eq!(NUM_DOCS, desc.0.items.len());

    let asc_scores: Vec<f32> = asc.0.items.iter().map(|(s, _)| f32::from_bits(s.to_bits())).collect();
    let mut prev = None;
    for score in &asc_scores {
        if let Some(previous) = prev {
            assert!(previous < score, "The scores should be ascending");
        }
        prev = Some(score)
    }

    let mut desc_scores: Vec<f32> =
        desc.0.items.iter().map(|(s, _)| f32::from_bits(s.to_bits())).collect();
    desc_scores.reverse();
    assert_eq!(asc_scores, desc_scores);

    Ok(())
}
