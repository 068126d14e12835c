use cooklang_indexer::{extract_ingredients, marker_names, normalize_name, recipe_from};

#[test]
fn marker_with_annotation_keeps_only_the_name() {
    assert_eq!(extract_ingredients("@Olive Oil {2 tbsp}"), vec!["olive oil".to_string()]);
    assert_eq!(extract_ingredients("@salt"), vec!["salt".to_string()]);
}

#[test]
fn trailing_text_is_captured_to_end_of_line() {
    let names = extract_ingredients("Add @chicken{1 kg} and @onion, diced.");
    assert_eq!(names, vec!["chicken".to_string(), "onion, diced.".to_string()]);
}

#[test]
fn name_stops_at_newline_and_next_marker() {
    let names = extract_ingredients("@egg\nthen @milk@flour");
    assert_eq!(names, vec!["egg".to_string(), "milk".to_string(), "flour".to_string()]);
}

#[test]
fn unclosed_brace_and_bare_marker_do_not_fail() {
    assert_eq!(extract_ingredients("@salt{pinch"), vec!["salt".to_string()]);
    assert_eq!(extract_ingredients("text @"), Vec::<String>::new());
    assert_eq!(extract_ingredients("@{x} @@\n"), Vec::<String>::new());
}

#[test]
fn annotation_may_span_lines_and_hold_markers() {
    assert_eq!(
        extract_ingredients("@rice{1 cup\n@not a marker} @water"),
        vec!["rice".to_string(), "water".to_string()]
    );
}

#[test]
fn raw_names_are_untouched() {
    assert_eq!(marker_names("@ Big Tomato {2}"), vec![" Big Tomato ".to_string()]);
}

#[test]
fn normalization_trims_and_lowercases() {
    assert_eq!(normalize_name("  ChIcKen \t"), "chicken");
    assert_eq!(normalize_name("ÉPICE"), "épice");
    assert_eq!(normalize_name(""), "");
}

#[test]
fn file_without_markers_is_no_recipe() {
    assert!(recipe_from("a.cook", "just text").is_none());
    let rec = recipe_from("a.cook", "@Salt{1}, then @salt\n").unwrap();
    assert_eq!(rec.path, "a.cook");
    assert_eq!(rec.ingredients, vec!["salt".to_string(), "salt".to_string()]);
}
