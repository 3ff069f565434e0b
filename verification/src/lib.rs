pub mod text;
pub mod ordering;
pub mod backend;
pub mod paths;
pub mod desktop;
pub mod glob_patterns;
