pub mod agents_md;
pub mod skills_store;
pub mod sync;
pub mod text;
