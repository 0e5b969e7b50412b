//! Verified core of the locales toolchain: the tokenizer, expression and
//! template parsers of the locale compiler, the operation codes of the
//! runtime expression format, the theme setting, which files hold which
//! locale, and the merging and consistency checks over locale sections.

pub mod span;
pub mod text;
pub mod vec_util;
pub mod parser;
pub mod theme;
pub mod ops;
pub mod locale_data;
pub mod locale_files;
pub mod yaml;
pub mod locale_entries;
