use pubky_wiki::page_store::PageStore;

#[test]
fn new_store_is_empty() {
    let store = PageStore::new();
    assert_eq!(store.get_page("home"), None);
}

#[test]
fn set_then_get_returns_the_content() {
    let mut store = PageStore::new();
    store.set_page("p1".to_string(), "# Page one".to_string());
    assert_eq!(store.get_page("p1"), Some(&"# Page one".to_string()));
    assert_eq!(store.get_page("p2"), None);
}

#[test]
fn set_overwrites_an_existing_page() {
    let mut store = PageStore::new();
    store.set_page("p1".to_string(), "old content".to_string());
    store.set_page("p1".to_string(), "new content".to_string());
    assert_eq!(store.get_page("p1"), Some(&"new content".to_string()));
}

#[test]
fn default_store_is_empty() {
    let store = PageStore::default();
    assert_eq!(store.get_page("home"), None);
}

#[test]
fn test_pages_hold_the_built_in_content() {
    let store = PageStore::with_test_pages();
    let home = store.get_page("home").expect("home page");
    assert!(home.starts_with("# Welcome to the Wiki\n"));
    assert!(home.contains(
        "(Alice's Page)[alice_user_id/550e8400-e29b-41d4-a716-446655440000]"
    ));
    let alice = store
        .get_page("alice_user_id/550e8400-e29b-41d4-a716-446655440000")
        .expect("alice page");
    assert!(alice.starts_with("# Alice's Page\n"));
    let bob = store
        .get_page("bob_user_id/660e9500-f39c-52e5-b827-557766551111")
        .expect("bob page");
    assert!(bob.starts_with("# Bob's Notes\n"));
    assert_eq!(store.get_page("missing"), None);
}
