//! Index structures and search planning for grep over object stores.

pub mod addresses;
pub mod assemble;
pub mod batches;
pub mod bits;
pub mod cache;
pub mod candidate;
pub mod collect;
pub mod compact;
pub mod decode;
pub mod delta_blocks;
pub mod delta_postings;
pub mod detect;
pub mod dictionary;
pub mod digest;
pub mod documents;
pub mod error;
pub mod eval;
pub mod events;
pub mod fetch;
pub mod format;
pub mod ids;
pub mod ingest;
pub mod joining;
pub mod lines;
pub mod local;
pub mod maps;
pub mod matches;
pub mod messages;
pub mod names;
pub mod pack;
pub mod pack_build;
pub mod planner;
pub mod posting_block;
pub mod postings;
pub mod postings_table;
pub mod program;
pub mod publish;
pub mod query;
pub mod ranking;
pub mod regions;
pub mod remote_terms;
pub mod renewed;
pub mod run;
pub mod scan;
pub mod search;
pub mod segment;
pub mod sorting;
pub mod source;
pub mod sparse_table;
pub mod stream;
pub mod terms;
pub mod text;
pub mod update;
pub mod visit;
pub mod windows;
