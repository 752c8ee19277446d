//! Data model and verified transformation logic for a Pokémon TCG Pocket
//! card-data pipeline: parsing scraped card pages, reading the RaenonX
//! master data and pull-rate pages, grouping card versions into abstract
//! cards, and the exact integer arithmetic behind pull-rate fractions.
pub mod text;
pub mod json;
pub mod decimal;
pub mod models;
pub mod rates;
pub mod derive;
pub mod limitless;
pub mod paths;
pub mod html;
pub mod pages;
pub mod lists;
pub mod raenonx;
pub mod rsc;
pub mod catalog;
pub mod groups;
pub mod db;
pub mod plan;
pub mod species;
