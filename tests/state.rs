use apiari_common::state::temp_path;

#[test]
fn temp_path_is_suffixed_sibling() {
    assert_eq!(temp_path("/tmp/dir/state.json"), "/tmp/dir/state.json.tmp");
}

#[test]
fn temp_path_of_bare_name() {
    assert_eq!(temp_path("state"), "state.tmp");
}
