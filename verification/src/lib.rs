//! A personal expense ledger: monetary input parsing, record building,
//! totals and a day-by-day chart series.

pub mod chart;
pub mod columns;
pub mod date;
pub mod day_map;
pub mod db_repo;
pub mod decimal;
pub mod error;
pub mod expression;
pub mod identities;
pub mod input_parser;
pub mod input_validator;
pub mod inputs;
pub mod money;
pub mod table;
pub mod tabs;
