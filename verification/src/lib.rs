//! Composite-hash, bit-stream and register-merge primitives of a HyperLogLog counter family.
#![allow(unused_imports)]

pub mod precisions;


pub mod bitstream;
pub mod bitwriter;
pub mod bitreader;

pub mod value_list;
pub mod broadword;
pub mod hyperloglog;
pub mod switch;
pub mod current;
pub mod shared;
pub mod composite_hash;
pub mod gaps;
pub mod gap_list;
pub mod rank_index;
pub mod gap_insert;
pub mod prefix_free_codes;
pub mod hybrid;
pub mod estimated_union_cardinalities;
pub mod hyperloglog_multiplicities;
pub mod gap_registers;
pub mod metadata_word;
pub mod rank_index_insertion;
