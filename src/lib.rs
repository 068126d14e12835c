//! Builds a reverse index from ingredient names to the recipe files that
//! mention them, and renders that index as a static HTML page.
//!
//! Recipe text marks an ingredient as `@name` or `@name{annotation}`. The
//! files under a recipe directory are handed in with their text; the index
//! keeps, under each trimmed and lower-cased ingredient name, the sorted
//! paths of the recipe files that mention it.

pub mod extract;
pub mod index;
pub mod paths;
pub mod render;
pub mod scan;
pub mod text;
pub mod url;

pub use extract::{extract_ingredients, marker_names, normalize_name, recipe_from, Recipe};
pub use index::{create_ingredient_index, IndexEntry, IngredientIndex};
pub use paths::{is_recipe_path, path_components};
pub use render::{generate_html_index, recipe_title, PAGE_HEAD, PAGE_TAIL};
pub use scan::{index_recipes, SourceFile};
pub use url::path_to_url;
