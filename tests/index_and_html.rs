use cooklang_indexer::{IngredientIndex, SourceFile, PAGE_HEAD, PAGE_TAIL};

fn file(path: &str, content: &str) -> SourceFile {
    SourceFile { path: path.to_string(), content: content.to_string() }
}

#[test]
fn lookup_needs_normalized_name() {
    let files = vec![file("r/soup.cook", "@Chicken{1}")];
    let index = IngredientIndex::new("r", &files);
    assert!(index.get_recipes_for_ingredient("Chicken").is_none());
    assert_eq!(index.get_recipes_for_ingredient("chicken").unwrap(), &vec!["r/soup.cook".to_string()]);
}

#[test]
fn empty_directory_gives_empty_index_and_valid_page() {
    let index = IngredientIndex::new("r", &[]);
    assert!(index.ingredients().is_empty());
    let html = index.generate_html("http://h");
    assert_eq!(html, format!("{}{}", PAGE_HEAD, PAGE_TAIL));
    assert!(html.starts_with("<!DOCTYPE html>"));
    assert!(html.ends_with("</body>\n</html>"));
}

#[test]
fn backup_files_are_not_indexed() {
    let files = vec![file("r/a.cook.bak", "@salt"), file("r/b.cook", "@pepper")];
    let index = IngredientIndex::new("r", &files);
    let names: Vec<String> = index.ingredients().into_iter().cloned().collect();
    assert_eq!(names, vec!["pepper".to_string()]);
}

#[test]
fn repeated_ingredient_lists_recipe_once() {
    let files = vec![file("r/b.cook", "@salt{1} and more @Salt{2}"), file("r/a.cook", "@salt")];
    let index = IngredientIndex::new("r", &files);
    assert_eq!(
        index.get_recipes_for_ingredient("salt").unwrap(),
        &vec!["r/a.cook".to_string(), "r/b.cook".to_string()]
    );
}

#[test]
fn ingredients_are_sorted() {
    let files = vec![file("r/a.cook", "@zucchini @apple @Milk")];
    let index = IngredientIndex::new("r", &files);
    let names: Vec<String> = index.ingredients().into_iter().cloned().collect();
    assert_eq!(names, vec!["apple".to_string(), "milk".to_string(), "zucchini".to_string()]);
}

#[test]
fn page_does_not_depend_on_file_order() {
    let a = vec![file("r/x.cook", "@egg @flour"), file("r/y.cook", "@egg"), file("r/z.txt", "@salt")];
    let b = vec![file("r/z.txt", "@salt"), file("r/y.cook", "@egg"), file("r/x.cook", "@egg @flour")];
    let ha = IngredientIndex::new("r", &a).generate_html("http://h");
    let hb = IngredientIndex::new("r", &b).generate_html("http://h");
    assert_eq!(ha, hb);
}

#[test]
fn page_lists_ingredient_with_links() {
    let files = vec![file("recipes/soup/chicken_soup.cook", "Add @chicken{1 kg}.")];
    let index = IngredientIndex::new("recipes", &files);
    let html = index.generate_html("http://example.com/r/");
    let body = "<div class=\"ingredient\">\n    <div class=\"ingredient-name\">chicken</div>\n    <ul class=\"recipe-list\">\n        <li><a href=\"http://example.com/r/soup%2Fchicken_soup\">chicken soup</a></li>\n    </ul>\n</div>\n";
    assert_eq!(html, format!("{}{}{}", PAGE_HEAD, body, PAGE_TAIL));
}

#[test]
fn special_characters_are_escaped() {
    let files = vec![file("r/a&b.cook", "@<b>\"fish\" & 'chips'")];
    let index = IngredientIndex::new("r", &files);
    let html = index.generate_html("http://h?x=1&y=2");
    assert!(html.contains("<div class=\"ingredient-name\">&lt;b&gt;&quot;fish&quot; &amp; &#39;chips&#39;</div>"));
    assert!(html.contains("<a href=\"http://h?x=1&amp;y=2/a%26b\">a&amp;b</a>"));
}
