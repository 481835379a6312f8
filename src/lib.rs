pub mod collection;
pub mod database;
pub mod json;
pub mod jsml_error;
pub mod keyed;
pub mod laws;
pub mod order;
pub mod query;
