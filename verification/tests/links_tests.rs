use pubky_wiki::link_parser::convert_custom_links;

#[test]
fn test_convert_custom_links() {
    let input = "Check out (Alice's Page)[alice_user_id/550e8400-e29b-41d4-a716-446655440000]";
    let expected = "Check out [Alice's Page](alice_user_id/550e8400-e29b-41d4-a716-446655440000)";
    assert_eq!(convert_custom_links(input), expected);
}

#[test]
fn test_multiple_links() {
    let input = "(Link 1)[page1] and (Link 2)[page2]";
    let expected = "[Link 1](page1) and [Link 2](page2)";
    assert_eq!(convert_custom_links(input), expected);
}

#[test]
fn plain_text_passes_through() {
    assert_eq!(convert_custom_links("no links here"), "no links here");
    assert_eq!(convert_custom_links(""), "");
}

#[test]
fn empty_display_text_or_target_is_no_link() {
    assert_eq!(convert_custom_links("()[page]"), "()[page]");
    assert_eq!(convert_custom_links("(text)[]"), "(text)[]");
}

#[test]
fn unterminated_link_passes_through() {
    assert_eq!(convert_custom_links("(text)[page"), "(text)[page");
    assert_eq!(convert_custom_links("(text"), "(text");
}

#[test]
fn rewriting_starts_at_the_leftmost_link() {
    assert_eq!(convert_custom_links("(x)(y)[z]"), "(x)[y](z)");
}

#[test]
fn separated_parens_and_brackets_are_no_link() {
    assert_eq!(convert_custom_links("(text) [page]"), "(text) [page]");
}
