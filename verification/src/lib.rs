//! The version of an LSM store and the operations that change it: the levels of each compaction
//! group, the deltas that commits and compactions produce, and the splits and merges of groups.
pub mod apart_laws;
pub mod apply;
pub mod apply_laws;
pub mod batch_task;
pub mod branched;
pub mod buf;
pub mod change_log;
pub mod compact;
pub mod compact_laws;
pub mod count_laws;
pub mod delta_laws;
pub mod divide_laws;
pub mod division_laws;
pub mod group_deltas;
pub mod group_laws;
pub mod groups;
pub mod initial;
pub mod key;
pub mod key_laws;
pub mod key_range;
pub mod level;
pub mod maps;
pub mod merge;
pub mod merge_laws;
pub mod object_laws;
pub mod parent_group;
pub mod place_laws;
pub mod queries;
pub mod query_laws;
pub mod report_laws;
pub mod safe_epoch;
pub mod seqs;
pub mod split;
pub mod split_count;
pub mod split_laws;
pub mod sst_delta;
pub mod sst_delta_laws;
pub mod sst_laws;
pub mod sstable_info;
pub mod sub_level;
pub mod sub_level_laws;
pub mod success_laws;
pub mod summary_laws;
pub mod table_state;
pub mod table_watermark;
pub mod telemetry;
pub mod text;
pub mod text_laws;
pub mod valid_laws;
pub mod validate;
pub mod version;
pub mod version_laws;
pub mod watermark_laws;
