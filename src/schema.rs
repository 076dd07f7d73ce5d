//! Column types of a relational source, and reconciling a table's physical schema
//! with its partition columns.

use vstd::prelude::*;
use crate::text::{same_text, views};

verus! {

/// Column types the export pipeline knows how to carry.
#[derive(Clone, Copy, Debug, PartialEq, Eq, Structural)]
pub enum ColumnType {
    Int16,
    Int32,
    Int64,
    Utf8,
    Boolean,
    TimestampMicros,
    Date32,
    Float64,
}

/// A column of an inferred schema.
#[derive(Debug)]
pub struct SchemaField {
    pub name: String,
    pub data_type: ColumnType,
    pub nullable: bool,
}

/// The column type for a relational type name, `None` when it is not supported.
pub open spec fn spec_column_type(sql: Seq<char>) -> Option<ColumnType> {
    if sql == "integer"@ || sql == "int4"@ {
        Some(ColumnType::Int32)
    } else if sql == "bigint"@ || sql == "int8"@ {
        Some(ColumnType::Int64)
    } else if sql == "smallint"@ || sql == "int2"@ {
        Some(ColumnType::Int16)
    } else if sql == "text"@ || sql == "character varying"@ || sql == "varchar"@ {
        Some(ColumnType::Utf8)
    } else if sql == "boolean"@ {
        Some(ColumnType::Boolean)
    } else if sql == "timestamp without time zone"@ {
        Some(ColumnType::TimestampMicros)
    } else if sql == "date"@ {
        Some(ColumnType::Date32)
    } else if sql == "numeric"@ || sql == "decimal"@ || sql == "double precision"@ {
        Some(ColumnType::Float64)
    } else {
        None
    }
}

/// The column type for a relational type name; numeric types fall back to 64-bit floats.
pub fn column_type_of(sql: &str) -> (r: Option<ColumnType>)
    ensures
        r == spec_column_type(sql@),
{
    if same_text(sql, "integer") || same_text(sql, "int4") {
        Some(ColumnType::Int32)
    } else if same_text(sql, "bigint") || same_text(sql, "int8") {
        Some(ColumnType::Int64)
    } else if same_text(sql, "smallint") || same_text(sql, "int2") {
        Some(ColumnType::Int16)
    } else if same_text(sql, "text") || same_text(sql, "character varying") || same_text(
        sql,
        "varchar",
    ) {
        Some(ColumnType::Utf8)
    } else if same_text(sql, "boolean") {
        Some(ColumnType::Boolean)
    } else if same_text(sql, "timestamp without time zone") {
        Some(ColumnType::TimestampMicros)
    } else if same_text(sql, "date") {
        Some(ColumnType::Date32)
    } else if same_text(sql, "numeric") || same_text(sql, "decimal") || same_text(
        sql,
        "double precision",
    ) {
        Some(ColumnType::Float64)
    } else {
        None
    }
}

/// Whether rows of this type can be read from the relational source into a batch.
pub open spec fn spec_sync_supported(t: ColumnType) -> bool {
    !(t == ColumnType::Int16 || t == ColumnType::Date32)
}

/// Whether rows of this type can be read from the relational source into a batch.
pub fn sync_supported(t: ColumnType) -> (r: bool)
    ensures
        r == spec_sync_supported(t),
{
    match t {
        ColumnType::Int16 | ColumnType::Date32 => false,
        _ => true,
    }
}

/// A column whose relational type has no counterpart.
#[derive(Debug)]
pub struct SchemaError {
    pub column: String,
    pub sql_type: String,
}

impl SchemaError {
    /// Names the offending type and column.
    pub fn message(&self) -> (r: String)
        ensures
            r@ == "Unsupported SQL type: "@ + self.sql_type@ + " in column "@ + self.column@,
    {
        let mut m = String::from_str("Unsupported SQL type: ");
        m.append(self.sql_type.as_str());
        m.append(" in column ");
        m.append(self.column.as_str());
        m
    }
}

/// One described column: its name, relational type name, and `YES` when it takes nulls.
pub struct ColumnDescription {
    pub name: String,
    pub sql_type: String,
    pub is_nullable: String,
}

/// Builds the schema of a relational table from its column descriptions, in order;
/// the first column of an unsupported type is reported.
pub fn infer_schema(columns: &Vec<ColumnDescription>) -> (r: Result<Vec<SchemaField>, SchemaError>)
    ensures
        match r {
            Ok(fields) => fields@.len() == columns@.len() && forall|k: int|
                0 <= k < columns@.len() ==> {
                    let c = #[trigger] columns@[k];
                    &&& fields@[k].name@ == c.name@
                    &&& spec_column_type(c.sql_type@) == Some(fields@[k].data_type)
                    &&& fields@[k].nullable == (c.is_nullable@ == "YES"@)
                },
            Err(e) => exists|k: int|
                0 <= k < columns@.len() && spec_column_type(#[trigger] columns@[k].sql_type@).is_none()
                    && e.column@ == columns@[k].name@ && e.sql_type@ == columns@[k].sql_type@
                    && forall|j: int|
                    0 <= j < k ==> spec_column_type(#[trigger] columns@[j].sql_type@).is_some(),
        },
{
    let mut fields: Vec<SchemaField> = Vec::new();
    let mut k: usize = 0;
    while k < columns.len()
        invariant
            k <= columns@.len(),
            fields@.len() == k,
            forall|j: int|
                0 <= j < k ==> {
                    let c = #[trigger] columns@[j];
                    &&& fields@[j].name@ == c.name@
                    &&& spec_column_type(c.sql_type@) == Some(fields@[j].data_type)
                    &&& fields@[j].nullable == (c.is_nullable@ == "YES"@)
                },
        decreases columns@.len() - k,
    {
        let c = &columns[k];
        match column_type_of(c.sql_type.as_str()) {
            None => {
                return Err(SchemaError { column: c.name.clone(), sql_type: c.sql_type.clone() });
            },
            Some(t) => {
                let nullable = same_text(c.is_nullable.as_str(), "YES");
                fields.push(SchemaField { name: c.name.clone(), data_type: t, nullable });
            },
        }
        k = k + 1;
    }
    Ok(fields)
}

/// Positions of the fields that survive reconciliation: those whose name is not a
/// partition column, in schema order.
pub open spec fn kept_positions(names: Seq<Seq<char>>, partitions: Seq<Seq<char>>) -> Seq<int>
    decreases names.len(),
{
    if names.len() == 0 {
        Seq::empty()
    } else {
        let before = kept_positions(names.drop_last(), partitions);
        if partitions.contains(names.last()) {
            before
        } else {
            before.push(names.len() - 1)
        }
    }
}

/// Whether `name` is one of `list`.
pub fn contains_name(list: &Vec<String>, name: &str) -> (r: bool)
    ensures
        r == views(list@).contains(name@),
{
    let mut k: usize = 0;
    while k < list.len()
        invariant
            k <= list@.len(),
            forall|j: int| 0 <= j < k ==> list@[j]@ != name@,
        decreases list@.len() - k,
    {
        if same_text(list[k].as_str(), name) {
            assert(views(list@)[k as int] == name@);
            return true;
        }
        k = k + 1;
    }
    proof {
        if views(list@).contains(name@) {
            let j = choose|j: int| 0 <= j < views(list@).len() && views(list@)[j] == name@;
            assert(list@[j]@ == name@);
        }
    }
    false
}

/// Reconciles a physical schema with the declared partition columns: the positions of
/// the fields to keep, dropping every field named like a partition column, so that the
/// engine never sees two columns of one name.
pub fn clean_schema(field_names: &Vec<String>, partitions: &Vec<String>) -> (kept: Vec<usize>)
    ensures
        kept@.map_values(|i: usize| i as int) == kept_positions(views(field_names@), views(partitions@)),
{
    let ghost names = views(field_names@);
    let ghost parts = views(partitions@);
    let mut kept: Vec<usize> = Vec::new();
    let mut i: usize = 0;
    assert(names.take(0) =~= Seq::<Seq<char>>::empty());
    assert(kept@.map_values(|i: usize| i as int) =~= Seq::<int>::empty());
    while i < field_names.len()
        invariant
            names == views(field_names@),
            parts == views(partitions@),
            i <= field_names@.len(),
            kept@.map_values(|i: usize| i as int) == kept_positions(names.take(i as int), parts),
        decreases field_names@.len() - i,
    {
        let ghost before = kept@;
        proof {
            assert(names.take(i + 1).drop_last() =~= names.take(i as int));
            assert(names.take(i + 1).last() == field_names@[i as int]@);
        }
        if !contains_name(partitions, field_names[i].as_str()) {
            kept.push(i);
            assert(kept@.map_values(|i: usize| i as int) =~= before.map_values(|i: usize| i as int).push(
                i as int,
            ));
        }
        i = i + 1;
    }
    assert(names.take(field_names@.len() as int) =~= names);
    kept
}

/// Schema reconciliation keeps exactly the fields not named like a partition column, in
/// schema order: no kept field is a partition column, every other field is kept,
/// and kept positions ascend.
pub proof fn lemma_clean_schema_exact(names: Seq<Seq<char>>, partitions: Seq<Seq<char>>)
    ensures
        forall|j: int|
            0 <= j < kept_positions(names, partitions).len() ==> 0 <= #[trigger] kept_positions(
                names,
                partitions,
            )[j] < names.len() && !partitions.contains(names[kept_positions(names, partitions)[j]]),
        forall|i: int|
            0 <= i < names.len() && !partitions.contains(#[trigger] names[i]) ==> kept_positions(
                names,
                partitions,
            ).contains(i),
        forall|j1: int, j2: int|
            0 <= j1 < j2 < kept_positions(names, partitions).len() ==> #[trigger] kept_positions(
                names,
                partitions,
            )[j1] < #[trigger] kept_positions(names, partitions)[j2],
    decreases names.len(),
{
    if names.len() > 0 {
        let init = names.drop_last();
        lemma_clean_schema_exact(init, partitions);
        let before = kept_positions(init, partitions);
        let k = kept_positions(names, partitions);
        assert forall|j: int| 0 <= j < before.len() implies names[before[j]] == init[before[j]] by {}
        assert forall|i: int| 0 <= i < names.len() && !partitions.contains(#[trigger] names[i])
            implies k.contains(i) by {
            if i < names.len() - 1 {
                assert(init[i] == names[i]);
                assert(before.contains(i));
                let j = choose|j: int| 0 <= j < before.len() && before[j] == i;
                assert(k[j] == i);
            } else {
                assert(k[k.len() - 1] == i);
            }
        }
    }
}

} // verus!
