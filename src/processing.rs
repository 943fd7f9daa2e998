pub mod recipe;
pub mod recipe_loader;
