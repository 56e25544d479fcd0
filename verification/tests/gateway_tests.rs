use mime_assoc::gateway::interpret_query_output;

#[test]
fn failed_invocation_means_no_default() {
    assert!(interpret_query_output(None).is_none());
}

#[test]
fn empty_output_means_no_default() {
    assert!(interpret_query_output(Some(String::new())).is_none());
}

#[test]
fn blank_output_means_no_default() {
    assert!(interpret_query_output(Some("  \n\t".to_string())).is_none());
}

#[test]
fn output_is_trimmed_to_the_handler() {
    let r = interpret_query_output(Some(" editor.desktop \n".to_string()));
    assert_eq!(r.as_deref(), Some("editor.desktop"));
}
