use cooklang_indexer::{is_recipe_path, path_components, path_to_url, recipe_title};

#[test]
fn only_exact_extension_is_a_recipe() {
    assert!(is_recipe_path("recipes/soup/chicken.cook"));
    assert!(!is_recipe_path("recipes/soup/chicken.cook.bak"));
    assert!(!is_recipe_path("recipes/soup/chicken.Cook"));
    assert!(!is_recipe_path("recipes/.cook"));
    assert!(!is_recipe_path("recipes/cook"));
    assert!(!is_recipe_path("recipes/a.cook/.."));
}

#[test]
fn components_skip_empty_and_dot_parts() {
    assert_eq!(path_components("./a//b/./c/"), vec![".", "a", "b", "c"]);
    assert_eq!(path_components("/x/y"), vec!["x", "y"]);
}

#[test]
fn url_for_recipe_in_base_dir() {
    let url = path_to_url("recipes/chicken_pasta.cook", "http://example.com/recipes", "recipes");
    assert_eq!(url, "http://example.com/recipes/chicken_pasta");
}

#[test]
fn url_encodes_directory_separator_and_spaces() {
    let url = path_to_url("recipes/soup/chicken soup.cook", "http://example.com/recipes//", "recipes");
    assert_eq!(url, "http://example.com/recipes/soup%2Fchicken%20soup");
    assert!(!url.contains(' '));
}

#[test]
fn url_encodes_non_ascii_as_utf8_bytes() {
    let url = path_to_url("r/crème.cook", "http://h", "r");
    assert_eq!(url, "http://h/cr%C3%A8me");
}

#[test]
fn url_falls_back_to_full_path_outside_base() {
    assert_eq!(path_to_url("/x/a.cook", "http://h", "recipes"), "http://h/%2Fx%2Fa");
    assert_eq!(path_to_url("other/a.cook", "http://h", "recipes"), "http://h/other%2Fa");
}

#[test]
fn url_of_base_dir_itself_is_unknown() {
    assert_eq!(path_to_url("recipes", "http://h", "recipes"), "http://h/unknown");
}

#[test]
fn title_replaces_dashes_and_underscores() {
    assert_eq!(recipe_title("dir/chicken-noodle_soup.cook"), "chicken noodle soup");
    assert_eq!(recipe_title("dir/.."), "Unknown Recipe");
    assert_eq!(recipe_title(".hidden"), ".hidden");
}

#[test]
fn url_keeps_path_outside_base_as_written() {
    assert_eq!(path_to_url("x//y/b.cook", "h", "z"), "h/x%2F%2Fy%2Fb");
    assert_eq!(path_to_url("/a.cook", "h", "z"), "h/%2F%2Fa");
}

#[test]
fn url_keeps_inner_dot_segments_of_relative_part() {
    assert_eq!(path_to_url("r/x/./y/b.cook", "h", "r"), "h/x%2F.%2Fy%2Fb");
    assert_eq!(path_to_url("r//x//y//b.cook", "h", "r"), "h/x%2F%2Fy%2Fb");
    assert_eq!(path_to_url("./r/x/b.cook", "h", "./r"), "h/x%2Fb");
}

#[test]
fn url_parent_drops_trailing_separators_and_dots() {
    assert_eq!(path_to_url("x/./b.cook", "h", "z"), "h/x%2Fb");
    assert_eq!(path_to_url("x/y/.//b.cook/", "h", "z"), "h/x%2Fy%2Fb");
    assert_eq!(path_to_url("./b.cook", "h", ""), "h/.%2Fb");
}
