//! Catalog-free table metadata: structural page validation, copy-on-write
//! images, page maps, publication decisions and bounded readers, each with a
//! machine-checked contract.
pub mod append;
pub mod append_image;
pub mod append_rows;
pub mod authenticated;
pub mod bytes;
pub mod cache;
pub mod candidate;
pub mod catalog;
pub mod catalog_rows;
pub mod cells;
pub mod changed_rows;
pub mod checkpoint_index;
pub mod cow_writer;
pub mod documents;
pub mod error;
pub mod genesis;
pub mod hash;
pub mod history;
pub mod image;
pub mod initialize;
pub mod intent;
pub mod laws;
pub mod listing;
pub mod local_store;
pub mod page_map;
pub mod page_read;
pub mod page_walk;
pub mod physical;
pub mod pin;
pub mod projection;
pub mod publication;
pub mod queries;
pub mod ranges;
pub mod reader_engine;
pub mod reader_engine_pages;
pub mod reader_meta;
pub mod reader_options;
pub mod reader_rows;
pub mod reader_schema;
pub mod rebase;
pub mod repeated_append;
pub mod replay;
pub mod resolve;
pub mod round_trip;
pub mod schema;
pub mod schema_rows;
pub mod selection;
pub mod selection_walk;
pub mod single_page;
pub mod storage;
pub mod stored_schema;
pub mod tables;
pub mod text;
pub mod transactions;
pub mod valid_append;
pub mod valid_transaction;
pub mod value;
pub mod verification;
pub mod write_latency_qualification;
