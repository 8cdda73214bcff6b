pub mod app_builder;
pub mod autocomplete;
pub mod trie;
