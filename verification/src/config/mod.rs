//! Configuration: the providers and their models, the theme, the files and how
//! they are merged, and the settings that come of them.
pub mod catalog;
pub mod theme;
pub mod document;
pub mod file;
pub mod persist;
pub mod sections;
pub mod settings;
pub mod load;
