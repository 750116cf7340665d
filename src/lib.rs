//! An in-memory relational store: typed columns, primary-key uniqueness,
//! foreign-key integrity and cascading key updates and deletes.
pub mod column;
pub mod condition;
pub mod database;
pub mod database_delete;
pub mod database_insert;
pub mod database_update;
pub mod db_errors;
pub mod literal;
pub mod table;
pub mod table_insert;
pub mod table_select;
pub mod table_update;
pub mod text_format;
pub mod table_errors;
