pub mod types;
pub mod util;
pub mod sequence;
pub mod coders;
pub mod meta;
pub mod postings;
pub mod sorted;
pub mod merge;
pub mod plain_merge;
pub mod intersect;
pub mod header;
pub mod stored_postings;
pub mod trie;
pub mod trie_read;
pub mod termbuf;
pub mod bktree;
pub mod slider;
pub mod merge_all;
pub mod search;
pub mod seq_merge;
pub mod indexing;
pub mod term_order;
