pub mod account;
pub mod category;
pub mod currency;
pub mod db;
pub mod error;
pub mod ledger;
pub mod subcats;
pub mod tag;
pub mod transaction;
