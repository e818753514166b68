use pubky_wiki::utils::{extract_details_wiki_url, extract_title};

#[test]
fn title_is_first_line_without_heading_marker() {
    assert_eq!(extract_title("# Welcome to the Wiki\n\nBody"), "Welcome to the Wiki");
}

#[test]
fn title_of_plain_first_line_is_the_line() {
    assert_eq!(extract_title("Just a title\nmore"), "Just a title");
}

#[test]
fn title_of_empty_input_is_empty() {
    assert_eq!(extract_title(""), "");
}

#[test]
fn repeated_heading_markers_are_all_removed() {
    assert_eq!(extract_title("# # Twice"), "Twice");
}

#[test]
fn deeper_headings_are_kept_verbatim() {
    assert_eq!(extract_title("## Subheading"), "## Subheading");
}

#[test]
fn title_line_loses_its_carriage_return() {
    assert_eq!(extract_title("# Title\r\nrest"), "Title");
}

#[test]
fn wiki_url_splits_at_the_first_slash() {
    assert_eq!(
        extract_details_wiki_url("user/page"),
        Some(("user".to_string(), "page".to_string()))
    );
    assert_eq!(
        extract_details_wiki_url("alice/550e8400/extra"),
        Some(("alice".to_string(), "550e8400/extra".to_string()))
    );
}

#[test]
fn wiki_url_parts_are_trimmed() {
    assert_eq!(
        extract_details_wiki_url("  user  /  page  "),
        Some(("user".to_string(), "page".to_string()))
    );
}

#[test]
fn wiki_url_without_slash_is_rejected() {
    assert_eq!(extract_details_wiki_url("just-a-page"), None);
    assert_eq!(extract_details_wiki_url(""), None);
}

#[test]
fn wiki_url_with_a_blank_part_is_rejected() {
    assert_eq!(extract_details_wiki_url("/page"), None);
    assert_eq!(extract_details_wiki_url("user/"), None);
    assert_eq!(extract_details_wiki_url("user/   "), None);
    assert_eq!(extract_details_wiki_url("  /page"), None);
}
