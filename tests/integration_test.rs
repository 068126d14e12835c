use cooklang_indexer::{IngredientIndex, SourceFile};

#[test]
fn test_index_creation() {
    let files = vec![SourceFile {
        path: "./test_recipes/pasta.cook".to_string(),
        content: "Boil @pasta{500 g} with @salt.\n".to_string(),
    }];
    let index = IngredientIndex::new("./test_recipes", &files);
    assert!(!index.ingredients().is_empty());
}
