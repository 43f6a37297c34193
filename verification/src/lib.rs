//! Decoder for the "BOMStore" container format: a flat, pointer-addressed
//! binary blob holding a fixed header, a table of byte-range blocks, a named
//! variable directory, and on-disk tree structures whose leaves store raw
//! key/value byte spans.
//!
//! Everything is addressed by integer block index, so one bounds-checked
//! resolution step guards every dereference; a corrupt reference makes a
//! single entry unusable instead of aborting a whole traversal.

mod bom;
mod bytes;
mod records;
mod util;
mod visit;
mod walk;

pub use bom::Bom;
pub use bom::BomError;
pub use bom::block_count_of;
pub use bom::block_table_of;
pub use bom::block_table_ok;
pub use bom::free_count_of;
pub use bom::free_offset_of;
pub use bom::free_table_of;
pub use bom::free_table_ok;
pub use bom::index_length_of;
pub use bom::index_limit_of;
pub use bom::index_offset_of;
pub use bom::lemma_free_table_in_index_region;
pub use bom::lemma_map_deterministic;
pub use bom::load_error;
pub use bom::var_lookup;
pub use bom::vars_count_of;
pub use bom::vars_match;
pub use bom::vars_offset_of;
pub use bom::vars_ok;
pub use bom::vars_scan;
pub use bytes::be_u16_at;
pub use bytes::be_u32_at;
pub use records::Header;
pub use records::Pointer;
pub use records::Tree;
pub use records::TreeEntry;
pub use records::TreeEntryIndices;
pub use records::Var;
pub use records::header_matches;
pub use records::pointer_at;
pub use records::tree_child_at;
pub use records::tree_entry_at;
pub use records::tree_entry_indices_at;
pub use records::tree_matches_at;
pub use records::var_matches_at;
pub use util::format_hex;
pub use util::hex_chars;
pub use util::hex_digit;
pub use util::hex_format;
pub use visit::Combiner;
pub use visit::EntryCopier;
pub use visit::PairCounter;
pub use visit::PairMapper;
pub use visit::elem_views;
pub use visit::fold_pairs;
pub use visit::lemma_counter_counts;
pub use visit::lemma_map_pairs_len;
pub use visit::map_pairs;
pub use walk::leaf_pairs;
pub use walk::lemma_leaf_pairs_counts;
pub use walk::pair_at;
pub use walk::pair_seq;
pub use walk::pair_usable;
pub use walk::tree_pairs;
pub use walk::usable_count;
