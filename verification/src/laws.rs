//! What the operations of a table are for: how their results relate to what they
//! are given, whatever the steps between.
pub mod accepted_appends;
pub mod accepted_transactions;
pub mod admitted_queries;
pub mod asked_ranges;
pub mod carried_appends;
pub mod changed_tables;
pub mod checked_documents;
pub mod given_listings;
pub mod lineages;
pub mod listed_files;
pub mod opened_tables;
pub mod paged_listings;
pub mod places;
pub mod plain_values;
pub mod pruned_listings;
pub mod published_commits;
pub mod read_back;
pub mod read_pages;
pub mod read_schemas;
pub mod replayed_commits;
pub mod requested_appends;
pub mod schema_growth;
pub mod selected_snapshots;
pub mod sound_images;
pub mod staged_appends;
pub mod stored_appends;
pub mod transaction_effects;
