//! A personal task store: tasks with short descriptions and creation
//! instants, free-form annotations attached to them, and the rules that keep
//! the two consistent.
pub mod stamp;
pub mod store;
pub mod laws;
