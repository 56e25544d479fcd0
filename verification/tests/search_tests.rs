use mime_assoc::search::search;
use mime_assoc::store::AssociationStore;
use mime_assoc::store::build_store;

fn sample_store() -> AssociationStore {
    let sources = vec!["application/pdf=Viewer;\ntext/plain=Editor;".to_string()];
    build_store(&sources)
}

#[test]
fn empty_query_returns_every_key_in_order() {
    let store = sample_store();
    assert_eq!(search(&store, ""), vec!["application/pdf", "text/plain"]);
}

#[test]
fn uppercase_query_finds_lowercase_key() {
    let store = sample_store();
    assert_eq!(search(&store, "PDF"), vec!["application/pdf"]);
}

#[test]
fn queries_differing_in_case_give_identical_results() {
    let store = sample_store();
    assert_eq!(search(&store, "pdf"), search(&store, "PDF"));
    assert_eq!(search(&store, "Text"), search(&store, "tExT"));
    assert_eq!(search(&store, "a"), search(&store, "A"));
}

#[test]
fn results_are_a_subset_in_store_order() {
    let sources = vec!["a/x=H;\nb/y=H;\nc/xz=H;".to_string()];
    let store = build_store(&sources);
    let keys = store.keys();
    let results = search(&store, "x");
    assert_eq!(results, vec!["a/x", "c/xz"]);
    let mut last_pos: usize = 0;
    for r in &results {
        let pos = keys.iter().position(|k| k == r).expect("result not a store key");
        assert!(pos >= last_pos);
        last_pos = pos;
    }
}

#[test]
fn unmatched_query_gives_empty_result() {
    let store = sample_store();
    assert_eq!(search(&store, "video"), Vec::<String>::new());
}

#[test]
fn query_text_is_literal_not_a_pattern() {
    let sources = vec!["a.b=H;\naxb=H;".to_string()];
    let store = build_store(&sources);
    assert_eq!(search(&store, "a.b"), vec!["a.b"]);
}
