pub mod date;
pub mod db;
pub mod docs;
pub mod error;
pub mod eval;
pub mod ledger;
pub mod markdown;
pub mod rank;
pub mod status;
