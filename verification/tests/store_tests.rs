use mime_assoc::store::build_store;

fn texts(v: &[&str]) -> Vec<String> {
    v.iter().map(|s| s.to_string()).collect()
}

fn store_pairs(sources: &[&str]) -> Vec<(String, Vec<String>)> {
    let store = build_store(&texts(sources));
    let mut out = Vec::new();
    for key in store.keys() {
        let handlers = store.handlers_for(&key).expect("key listed but not found");
        out.push((key, handlers));
    }
    out
}

#[test]
fn two_sources_union_is_sorted_and_deduplicated() {
    let pairs = store_pairs(&["text/plain=Editor1;Editor2;", "text/plain=Editor2;Editor3;"]);
    assert_eq!(pairs.len(), 1);
    assert_eq!(pairs[0].0, "text/plain");
    assert_eq!(pairs[0].1, vec!["Editor1", "Editor2", "Editor3"]);
}

#[test]
fn source_order_does_not_matter() {
    let a = "text/plain=Editor1;Editor2;\napplication/pdf=Viewer;";
    let b = "text/plain=Editor2;Editor3;\nimage/png=Viewer;Painter;";
    assert_eq!(store_pairs(&[a, b]), store_pairs(&[b, a]));
}

#[test]
fn merging_a_source_twice_equals_merging_it_once() {
    let s = "text/plain=Editor2;Editor1;\napplication/pdf=Viewer;";
    assert_eq!(store_pairs(&[s]), store_pairs(&[s, s]));
}

#[test]
fn keys_come_out_in_ascending_order() {
    let pairs = store_pairs(&["text/plain=E;\napplication/pdf=V;\nimage/png=P;"]);
    let keys: Vec<&str> = pairs.iter().map(|p| p.0.as_str()).collect();
    assert_eq!(keys, vec!["application/pdf", "image/png", "text/plain"]);
}

#[test]
fn non_matching_lines_are_skipped() {
    let pairs = store_pairs(&["# comment\n\ntext/plain=Editor;\nbroken line\nnosemicolon=App"]);
    assert_eq!(pairs.len(), 1);
    assert_eq!(pairs[0].0, "text/plain");
    assert_eq!(pairs[0].1, vec!["Editor"]);
}

#[test]
fn empty_tokens_are_dropped_and_tokens_trimmed() {
    let pairs = store_pairs(&["text/plain= Editor1 ;;  ; Editor2;"]);
    assert_eq!(pairs[0].1, vec!["Editor1", "Editor2"]);
}

#[test]
fn keys_are_trimmed() {
    let pairs = store_pairs(&["  text/plain  =Editor;"]);
    assert_eq!(pairs[0].0, "text/plain");
}

#[test]
fn crlf_line_endings_are_accepted() {
    let pairs = store_pairs(&["text/plain=Editor1;\r\napplication/pdf=Viewer;\r\n"]);
    assert_eq!(pairs.len(), 2);
    assert_eq!(pairs[0].0, "application/pdf");
    assert_eq!(pairs[1].0, "text/plain");
}

#[test]
fn duplicates_within_one_source_are_merged() {
    let pairs = store_pairs(&["text/plain=B;A;\ntext/plain=A;C;"]);
    assert_eq!(pairs.len(), 1);
    assert_eq!(pairs[0].1, vec!["A", "B", "C"]);
}

#[test]
fn no_sources_give_an_empty_store() {
    assert_eq!(store_pairs(&[]).len(), 0);
}

#[test]
fn value_may_contain_equals_signs() {
    let pairs = store_pairs(&["a=b=c;"]);
    assert_eq!(pairs.len(), 1);
    assert_eq!(pairs[0].0, "a");
    assert_eq!(pairs[0].1, vec!["b=c"]);
}

#[test]
fn handlers_for_unknown_key_is_none() {
    let store = build_store(&texts(&["text/plain=Editor;"]));
    assert!(store.handlers_for("image/png").is_none());
}
