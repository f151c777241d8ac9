//! Execution of queries.
pub mod order;
pub mod hash;
pub mod agg_heap;
pub mod agg_sort;
pub mod agg_topk;
pub mod utf8_arena;
pub mod result;
pub mod mask_util;
pub mod having;
pub mod filter;
pub mod simd_count;
pub mod column_slice;
pub mod grouping;
pub mod aggregate;
pub mod sorting;
pub mod group;
pub mod group_utf8;
pub mod group_referrer;
pub mod group_int;
pub mod kernel;
pub mod group_fused_pair;
pub mod ratio;
pub mod group_fused_text;
pub mod group_fused_phrase;
pub mod group_fused_region;
pub mod group_fused_quad;
pub mod simd_scan;
pub mod group_columnar;
pub mod group_fused_q41;
pub mod group_fused_q36;
pub mod group_fused_q11;
pub mod group_fused_q43;
pub mod group_fused_q40;
pub mod group_fused_q22;
pub mod group_fused_q29;
pub mod group_near_unique;
pub mod group_sorted;
pub mod group_direct;
pub mod engine_laws;
pub mod fast_agg;
pub mod frequent_laws;
pub mod fast_q29;
pub mod group_fused;
pub mod scan;
pub mod order_laws;
pub mod execute;
pub mod filter_fast;
pub mod filter_laws;
pub mod scan_order;
pub mod scan_fast;
pub mod group_fused_q23;
pub mod scan_stream;
pub mod group_laws;
pub mod kernel_rows;
pub mod plain_rows;
pub mod plain_laws;
pub mod text_laws;
pub mod packed_laws;
pub mod region_laws;
pub mod sorted_laws;
pub mod average_laws;
pub mod int_laws;
pub mod special_laws;
pub mod topk_laws;
pub mod aggregate_laws;
pub mod quick_laws;
pub mod page_laws;
pub mod scan_laws;
pub mod top_laws;
pub mod grouped_laws;
pub mod total_laws;
