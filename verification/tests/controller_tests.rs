use mime_assoc::controller::Controller;
use mime_assoc::controller::Event;
use mime_assoc::controller::Mode;
use mime_assoc::controller::ViewContent;
use mime_assoc::gateway::interpret_query_output;
use mime_assoc::store::AssociationStore;
use mime_assoc::store::build_store;

fn sample_store() -> AssociationStore {
    let sources = vec!["text/plain=Editor1;Editor2;\napplication/pdf=Viewer;".to_string()];
    build_store(&sources)
}

#[test]
fn initial_state_lists_every_key() {
    let store = sample_store();
    let c = Controller::init(&store);
    assert!(matches!(c.mode, Mode::Searching));
    assert_eq!(c.results, vec!["application/pdf", "text/plain"]);
    assert!(c.selected_mime.is_none());
}

#[test]
fn search_event_recomputes_candidates() {
    let store = sample_store();
    let mut c = Controller::init(&store);
    let cmd = c.handle(&store, Event::SearchQueryChanged("plain".to_string()));
    assert!(cmd.is_none());
    assert!(matches!(c.mode, Mode::Searching));
    assert_eq!(c.results, vec!["text/plain"]);
    assert_eq!(c.search_text, "plain");
}

#[test]
fn selecting_a_valid_index_picks_the_candidate() {
    let store = sample_store();
    let mut c = Controller::init(&store);
    let cmd = c.handle(&store, Event::ItemSelected(1));
    assert!(cmd.is_none());
    assert!(matches!(c.mode, Mode::Selecting));
    assert_eq!(c.selected_mime.as_deref(), Some("text/plain"));
}

#[test]
fn sentinel_selection_clears_the_selection_and_shows_no_match() {
    let store = sample_store();
    let mut c = Controller::init(&store);
    c.handle(&store, Event::ItemSelected(1));
    let cmd = c.handle(&store, Event::ItemSelected(u32::MAX));
    assert!(cmd.is_none());
    assert!(matches!(c.mode, Mode::Selecting));
    assert!(c.selected_mime.is_none());
    let view = c.project(&store, &None);
    assert!(view.no_match);
    assert!(matches!(view.content, ViewContent::NothingSelected));
}

#[test]
fn out_of_range_selection_keeps_the_previous_selection() {
    let store = sample_store();
    let mut c = Controller::init(&store);
    c.handle(&store, Event::ItemSelected(0));
    c.handle(&store, Event::ItemSelected(17));
    assert_eq!(c.selected_mime.as_deref(), Some("application/pdf"));
}

#[test]
fn searching_view_shows_candidates_and_prompt_state() {
    let store = sample_store();
    let mut c = Controller::init(&store);
    let view = c.project(&store, &None);
    assert!(!view.no_match);
    match view.content {
        ViewContent::Searching { query_is_empty, candidates } => {
            assert!(query_is_empty);
            assert_eq!(candidates, vec!["application/pdf", "text/plain"]);
        },
        _ => panic!("expected the searching view"),
    }
    c.handle(&store, Event::SearchQueryChanged("pdf".to_string()));
    match c.project(&store, &None).content {
        ViewContent::Searching { query_is_empty, candidates } => {
            assert!(!query_is_empty);
            assert_eq!(candidates, vec!["application/pdf"]);
        },
        _ => panic!("expected the searching view"),
    }
}

#[test]
fn default_request_without_selection_orders_nothing() {
    let store = sample_store();
    let mut c = Controller::init(&store);
    let cmd = c.handle(&store, Event::DefaultRequested("Editor1".to_string()));
    assert!(cmd.is_none());
    assert!(matches!(c.mode, Mode::Setting));
}

#[test]
fn mocked_registry_round_trip_switches_the_default_label() {
    let store = sample_store();
    let keys_before = store.keys();
    let mut c = Controller::init(&store);
    c.handle(&store, Event::SearchQueryChanged("plain".to_string()));
    c.handle(&store, Event::ItemSelected(0));

    // the mocked registry: no default before any set
    let mut registry: Option<String> = None;

    let current = interpret_query_output(registry.clone());
    assert!(current.is_none());
    match c.project(&store, &current).content {
        ViewContent::Detail { mime_type, rows } => {
            assert_eq!(mime_type, "text/plain");
            assert_eq!(rows.len(), 2);
            assert!(rows.iter().all(|r| !r.is_default));
        },
        _ => panic!("expected the detail view"),
    }

    // requesting a default orders exactly one mutation, which the mock applies
    let cmd = c.handle(&store, Event::DefaultRequested("Editor2".to_string()));
    let cmd = cmd.expect("a selection was made, so a command is owed");
    assert_eq!(cmd.mime_type, "text/plain");
    assert_eq!(cmd.handler, "Editor2");
    registry = Some(format!("{}\n", cmd.handler));

    let current = interpret_query_output(registry.clone());
    assert_eq!(current.as_deref(), Some("Editor2"));
    match c.project(&store, &current).content {
        ViewContent::Detail { mime_type, rows } => {
            assert_eq!(mime_type, "text/plain");
            let flags: Vec<(&str, bool)> =
                rows.iter().map(|r| (r.handler.as_str(), r.is_default)).collect();
            assert_eq!(flags, vec![("Editor1", false), ("Editor2", true)]);
        },
        _ => panic!("expected the detail view"),
    }

    // the store itself was never touched
    assert_eq!(store.keys(), keys_before);
}
