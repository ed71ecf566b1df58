pub mod text;
pub mod filtering;
pub mod search;
pub mod sort;
pub mod domain;
pub mod file_index;
pub mod ui;
pub mod application;
pub mod browser;
pub mod settings;
pub mod desktop;
