//! A verified persistence and aggregation core for a personal shopping-list
//! manager: named lists hold items with required and purchased quantities, a
//! unit label and a unit price; the store keeps them in an embedded SQLite
//! database and every read of a full list comes back sorted (unpurchased items
//! first, names ascending within each group) together with the total amount
//! spent.
//!
//! Quantities and prices are fixed-point numbers held in thousandths of a
//! unit, so all arithmetic is exact integer arithmetic.

pub mod aggregate;
pub mod database;
pub mod lista;
pub mod text;

pub use database::DBConnector;
pub use database::SQLiteConnector;
pub use database::StoreError;
pub use lista::Item;
pub use lista::ItemForm;
pub use lista::Lista;
