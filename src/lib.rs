//! Partition-aware table registration, a bounded query-result cache and a
//! partitioned export planner for a small SQL data service.

pub mod cache;
pub mod partition;
pub mod query;
pub mod schema;
pub mod stats;
pub mod store_metrics;
pub mod table_spec;
pub mod text;

pub use cache::{check_cache, initialize_cache, QueryCache};
pub use partition::{
    build_column_index_map, build_partition_key, group_rows_by_partition, plan_export,
    validate_partition_keys, CivilTime, Column, ColumnBatch, ColumnValues, ExportError,
    ExportPlan, PartitionFile, RowGroups,
};
pub use query::{
    count_query, determine_content_type, determine_output_format,
    determine_tables_output_format, extract_query, format_from_name, query_from_body, select_query,
    MyQueryService, OutputFormat, PlanoBadRequest, PlanoServerError,
};
pub use schema::{
    clean_schema, column_type_of, infer_schema, sync_supported, ColumnDescription, ColumnType,
    SchemaError, SchemaField,
};
pub use stats::AtomicIntCacheStats;
pub use store_metrics::{StoreCounters, StoreOp};
pub use table_spec::{first_of_each_root, parse_table, parse_table_spec, TableSpec};
