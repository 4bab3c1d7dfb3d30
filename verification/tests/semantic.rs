use ibrief::briefing::ContentItem;
use ibrief::score::Score;
use ibrief::semantic::{
    collapse_near_duplicates, embed_text, item_similarity, too_similar, with_embeddings, DEDUP_SIMILARITY,
    DIVERSITY_SIMILARITY,
};

fn item(id: &str, emb: Option<Vec<f32>>) -> ContentItem {
    ContentItem {
        id: id.into(),
        source_id: "s".into(),
        title: id.into(),
        url: format!("https://x/{id}"),
        published_at: None,
        raw_summary: None,
        summary: None,
        topics: vec![],
        entities: vec![],
        embedding: emb.map(|v| v.into_iter().map(f32::to_bits).collect()),
    }
}

fn cosine(a: &ContentItem, b: &ContentItem) -> Score {
    let (mut dot, mut na, mut nb) = (0.0_f64, 0.0_f64, 0.0_f64);
    if let (Some(x), Some(y)) = (&a.embedding, &b.embedding) {
        for (p, q) in x.iter().zip(y) {
            let (p, q) = (f32::from_bits(*p) as f64, f32::from_bits(*q) as f64);
            dot += p * q;
            na += p * p;
            nb += q * q;
        }
    }
    let c = if na == 0.0 || nb == 0.0 { 0.0 } else { dot / (na.sqrt() * nb.sqrt()) };
    Score::from_bits(c.to_bits()).unwrap()
}

fn table(items: &Vec<ContentItem>) -> Vec<Vec<Score>> {
    items.iter().map(|a| items.iter().map(|b| cosine(a, b)).collect()).collect()
}

#[test]
fn collapse_keeps_higher_ranked_of_near_duplicates() {
    let items = vec![
        item("a", Some(vec![1.0, 0.0, 0.0])),
        item("b", Some(vec![0.999, 0.04, 0.0])),
        item("c", Some(vec![0.0, 1.0, 0.0])),
    ];
    let out = collapse_near_duplicates(&items, &table(&items), Score { place: DEDUP_SIMILARITY });
    let ids: Vec<&str> = out.iter().map(|i| i.id.as_str()).collect();
    assert_eq!(ids, vec!["a", "c"]);
}

#[test]
fn items_without_embedding_always_pass() {
    let items = vec![item("a", Some(vec![1.0, 0.0])), item("b", None), item("c", None)];
    let out = collapse_near_duplicates(&items, &table(&items), Score { place: DEDUP_SIMILARITY });
    assert_eq!(out.len(), 3);
}

#[test]
fn thresholds_are_the_documented_numbers() {
    assert_eq!(f64::from_bits(DEDUP_SIMILARITY as u64), 0.92);
    assert_eq!(f64::from_bits(DIVERSITY_SIMILARITY as u64), 0.85);
}

#[test]
fn a_dropped_item_does_not_drop_others() {
    // b is the story of a, c that of b but not that of a: only b falls out.
    let items = vec![item("a", Some(vec![1.0])), item("b", Some(vec![1.0])), item("c", Some(vec![1.0]))];
    let one = Score::from_bits(1.0_f64.to_bits()).unwrap();
    let zero = Score::from_bits(0.0_f64.to_bits()).unwrap();
    let cosines = vec![vec![one, one, zero], vec![one, one, one], vec![zero, one, one]];
    let out = collapse_near_duplicates(&items, &cosines, one);
    let ids: Vec<&str> = out.iter().map(|i| i.id.as_str()).collect();
    assert_eq!(ids, vec!["a", "c"]);
}

#[test]
fn similarity_needs_both_embeddings() {
    let a = item("a", Some(vec![1.0]));
    let b = item("b", None);
    let half = Score::from_bits(0.5_f64.to_bits()).unwrap();
    assert_eq!(item_similarity(&a, &a, half), Some(half));
    assert_eq!(item_similarity(&a, &b, half), None);
    assert!(too_similar(&a, &vec![item("c", Some(vec![2.0]))], &vec![half], half));
    assert!(!too_similar(&b, &vec![item("c", Some(vec![2.0]))], &vec![half], half));
    assert!(!too_similar(&a, &vec![], &vec![], half));
}

#[test]
fn embedded_text_has_title_and_feed_summary() {
    let mut it = item("Titel", None);
    assert_eq!(embed_text(&it), "clustering: Titel");
    it.raw_summary = Some("Roh".into());
    assert_eq!(embed_text(&it), "clustering: Titel\nRoh");
}

#[test]
fn embeddings_are_set_item_by_item() {
    let items = vec![item("a", None), item("b", Some(vec![1.0]))];
    let out = with_embeddings(items, vec![Some(vec![7, 8]), None]);
    assert_eq!(out[0].embedding, Some(vec![7, 8]));
    assert_eq!(out[1].embedding, None);
    assert_eq!(out[1].id, "b");
}
