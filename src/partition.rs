//! Grouping the rows of a materialized batch by partition key, and planning one
//! output file per group.

use vstd::prelude::*;
use vstd::hash_map::StringHashMap;
use chrono::{Datelike, Timelike};
use crate::text::{
    is_last_index, join_path, last_index, lemma_last_index, push_char, push_path,
    push_signed_decimal, push_two_digit, same_text, signed_decimal, two_digit, views,
};

verus! {

/// The values of one column, as far as partitioning reads them.
pub enum ColumnValues {
    /// A text column, one value per row.
    Utf8(Vec<String>),
    /// A timestamp column in microseconds since the Unix epoch, one value per row.
    TimestampMicros(Vec<i64>),
    /// A column of any other type; its values are never read.
    Other,
}

/// A named column of a batch.
pub struct Column {
    pub name: String,
    pub values: ColumnValues,
}

/// The rows of a batch as partitioning sees them: named columns sharing one row count.
pub struct ColumnBatch {
    columns: Vec<Column>,
    num_rows: usize,
}

/// A column's values fit a batch of `n` rows.
pub open spec fn values_fit(v: ColumnValues, n: nat) -> bool {
    match v {
        ColumnValues::Utf8(s) => s@.len() == n,
        ColumnValues::TimestampMicros(t) => t@.len() == n,
        ColumnValues::Other => true,
    }
}

/// Calendar fields of a timestamp, in UTC.
#[derive(Clone, Copy, Debug, PartialEq, Eq, Structural)]
pub struct CivilTime {
    pub year: i32,
    pub month: u32,
    pub day: u32,
    pub hour: u32,
}

/// The calendar fields of a microsecond timestamp, `None` when it lies outside the
/// representable range.
pub uninterp spec fn civil_of_micros(us: int) -> Option<CivilTime>;

/// Relies on arrow's `temporal_conversions::timestamp_us_to_datetime` (what a
/// microsecond timestamp column's `value_as_datetime` calls) and on chrono's `year`,
/// `month` (1 to 12), `day` (1 to 31) and `hour` (0 to 23) of the result.
#[verifier::external_body]
fn civil_time_of_micros(us: i64) -> (r: Option<CivilTime>)
    ensures
        r == civil_of_micros(us as int),
        r matches Some(t) ==> 1 <= t.month <= 12 && 1 <= t.day <= 31 && t.hour <= 23,
{
    arrow::temporal_conversions::timestamp_us_to_datetime(us).map(
        |d| CivilTime { year: d.year(), month: d.month(), day: d.day(), hour: d.hour() },
    )
}

/// Why a batch could not be partitioned, in spec terms.
pub enum ExportFault {
    ReservedKeyWithoutTimestamp(Seq<char>),
    NoTimestampColumn,
    UnknownColumn(Seq<char>),
    NotTextColumn(Seq<char>),
    NotTimestampColumn(Seq<char>),
    TimestampOutOfRange(int),
    TooManyRows,
}

/// Why a batch could not be partitioned.
#[derive(Debug)]
pub enum ExportError {
    /// A calendar keyword is a partition key but no timestamp column is named.
    ReservedKeyWithoutTimestamp(String),
    /// A calendar keyword was met while no timestamp column is named.
    NoTimestampColumn,
    /// The batch has no column of this name.
    UnknownColumn(String),
    /// The named partition column does not hold text.
    NotTextColumn(String),
    /// The named timestamp column does not hold microsecond timestamps.
    NotTimestampColumn(String),
    /// A timestamp lies outside the calendar's range.
    TimestampOutOfRange(i64),
    /// A row index does not fit in 32 bits.
    TooManyRows,
}

impl View for ExportError {
    type V = ExportFault;

    open spec fn view(&self) -> ExportFault {
        match self {
            ExportError::ReservedKeyWithoutTimestamp(k) => ExportFault::ReservedKeyWithoutTimestamp(k@),
            ExportError::NoTimestampColumn => ExportFault::NoTimestampColumn,
            ExportError::UnknownColumn(c) => ExportFault::UnknownColumn(c@),
            ExportError::NotTextColumn(c) => ExportFault::NotTextColumn(c@),
            ExportError::NotTimestampColumn(c) => ExportFault::NotTimestampColumn(c@),
            ExportError::TimestampOutOfRange(v) => ExportFault::TimestampOutOfRange(*v as int),
            ExportError::TooManyRows => ExportFault::TooManyRows,
        }
    }
}

impl ColumnBatch {
    pub closed spec fn spec_columns(&self) -> Seq<Column> {
        self.columns@
    }

    pub closed spec fn spec_num_rows(&self) -> nat {
        self.num_rows as nat
    }

    /// Every column holds exactly one value per row.
    pub open spec fn wf(&self) -> bool {
        forall|c: int|
            0 <= c < self.spec_columns().len() ==> values_fit(
                #[trigger] self.spec_columns()[c].values,
                self.spec_num_rows(),
            )
    }

    /// A batch of `num_rows` rows; `None` when a column holds another number of values.
    pub fn new(num_rows: usize, columns: Vec<Column>) -> (r: Option<ColumnBatch>)
        ensures
            match r {
                Some(b) => b.wf() && b.spec_columns() == columns@ && b.spec_num_rows()
                    == num_rows,
                None => exists|c: int|
                    0 <= c < columns@.len() && !values_fit(
                        #[trigger] columns@[c].values,
                        num_rows as nat,
                    ),
            },
    {
        let mut c: usize = 0;
        while c < columns.len()
            invariant
                c <= columns@.len(),
                forall|k: int| 0 <= k < c ==> values_fit(#[trigger] columns@[k].values, num_rows as nat),
            decreases columns@.len() - c,
        {
            let fits = match &columns[c].values {
                ColumnValues::Utf8(v) => v.len() == num_rows,
                ColumnValues::TimestampMicros(v) => v.len() == num_rows,
                ColumnValues::Other => true,
            };
            if !fits {
                return None;
            }
            c = c + 1;
        }
        Some(ColumnBatch { columns, num_rows })
    }

    pub fn num_rows(&self) -> (r: usize)
        ensures
            r == self.spec_num_rows(),
    {
        self.num_rows
    }

    pub fn columns(&self) -> (r: &Vec<Column>)
        ensures
            r@ == self.spec_columns(),
    {
        &self.columns
    }

    /// The names of the columns, in order.
    pub fn column_names(&self) -> (names: Vec<String>)
        ensures
            views(names@) == column_names(self),
    {
        let mut names: Vec<String> = Vec::new();
        let mut c: usize = 0;
        while c < self.columns.len()
            invariant
                c <= self.spec_columns().len(),
                views(names@) == column_names(self).take(c as int),
            decreases self.spec_columns().len() - c,
        {
            let ghost before = names@;
            names.push(self.columns[c].name.clone());
            proof {
                assert(names@ == before.push(self.spec_columns()[c as int].name));
                assert(views(names@) =~= views(before).push(column_names(self)[c as int]));
                assert(column_names(self).take(c + 1) =~= column_names(self).take(c as int).push(
                    column_names(self)[c as int],
                ));
            }
            c = c + 1;
        }
        assert(column_names(self).take(c as int) =~= column_names(self));
        names
    }
}

/// The names of the batch's columns, in order.
pub open spec fn column_names(b: &ColumnBatch) -> Seq<Seq<char>> {
    b.spec_columns().map_values(|c: Column| c.name@)
}

/// `m` maps each name to its last position in `names`, and holds no other key.
pub open spec fn is_index_map(m: Map<Seq<char>, usize>, names: Seq<Seq<char>>) -> bool {
    &&& forall|n: Seq<char>| #[trigger] m.contains_key(n) <==> names.contains(n)
    &&& forall|n: Seq<char>| #[trigger] m.contains_key(n) ==> m[n] as int == last_index(names, n)
}

/// Maps each column name to its position; where a name repeats, the later position wins.
pub fn build_column_index_map(names: &Vec<String>) -> (m: StringHashMap<usize>)
    ensures
        is_index_map(m@, views(names@)),
{
    let mut m: StringHashMap<usize> = StringHashMap::new();
    let mut i: usize = 0;
    while i < names.len()
        invariant
            i <= names@.len(),
            is_index_map(m@, views(names@).take(i as int)),
        decreases names@.len() - i,
    {
        let ghost before = views(names@).take(i as int);
        let ghost after = views(names@).take(i + 1);
        m.insert(names[i].clone(), i);
        proof {
            assert(after =~= before.push(names@[i as int]@));
            assert forall|n: Seq<char>| #[trigger] m@.contains_key(n) <==> after.contains(n) by {
                if n == names@[i as int]@ {
                    assert(after[i as int] == n);
                } else if before.contains(n) {
                    let k = choose|k: int| 0 <= k < before.len() && before[k] == n;
                    assert(after[k] == n);
                } else if after.contains(n) {
                    let k = choose|k: int| 0 <= k < after.len() && after[k] == n;
                    assert(before[k] == n);
                }
            }
            assert forall|n: Seq<char>| #[trigger] m@.contains_key(n) implies m@[n] as int
                == last_index(after, n) by {
                if n == names@[i as int]@ {
                    lemma_last_index(after, n, i as int);
                } else {
                    let j = last_index(before, n);
                    assert(is_last_index(before, n, j));
                    assert(is_last_index(after, n, j));
                    lemma_last_index(after, n, j);
                }
            }
        }
        i = i + 1;
    }
    assert(views(names@).take(names@.len() as int) =~= views(names@));
    m
}

/// The calendar keywords that name a part of the timestamp column.
pub open spec fn is_reserved(key: Seq<char>) -> bool {
    key == "year"@ || key == "month"@ || key == "day"@ || key == "hour"@
}

/// Whether `key` is one of `year`, `month`, `day`, `hour`.
pub fn is_reserved_key(key: &str) -> (r: bool)
    ensures
        r == is_reserved(key@),
{
    same_text(key, "year") || same_text(key, "month") || same_text(key, "day") || same_text(
        key,
        "hour",
    )
}

/// The text of one calendar component: the year in decimal, the others as two digits.
pub open spec fn component_text(key: Seq<char>, t: CivilTime) -> Seq<char> {
    if key == "year"@ {
        signed_decimal(t.year as int)
    } else if key == "month"@ {
        two_digit(t.month as nat)
    } else if key == "day"@ {
        two_digit(t.day as nat)
    } else {
        two_digit(t.hour as nat)
    }
}

/// The text of the calendar component named by `key`.
pub fn time_component(key: &str, t: &CivilTime) -> (r: String)
    requires
        is_reserved(key@),
    ensures
        r@ == component_text(key@, *t),
{
    let mut out = String::new();
    if same_text(key, "year") {
        push_signed_decimal(&mut out, t.year as i64);
    } else if same_text(key, "month") {
        push_two_digit(&mut out, t.month);
    } else if same_text(key, "day") {
        push_two_digit(&mut out, t.day);
    } else {
        push_two_digit(&mut out, t.hour);
    }
    assert(out@ =~= component_text(key@, *t));
    out
}

/// Text view of an optional name.
pub open spec fn opt_view(o: Option<String>) -> Option<Seq<char>> {
    match o {
        Some(s) => Some(s@),
        None => None,
    }
}

/// The `key=value` segment of row `row` for one partition key.
pub open spec fn segment(b: &ColumnBatch, key: Seq<char>, ts: Option<Seq<char>>, row: int) -> Result<
    Seq<char>,
    ExportFault,
> {
    if is_reserved(key) {
        match ts {
            None => Err(ExportFault::NoTimestampColumn),
            Some(t) => {
                let c = last_index(column_names(b), t);
                if c < 0 {
                    Err(ExportFault::UnknownColumn(t))
                } else {
                    match b.spec_columns()[c].values {
                        ColumnValues::TimestampMicros(v) => match civil_of_micros(v@[row] as int) {
                            Some(ct) => Ok(key + seq!['='] + component_text(key, ct)),
                            None => Err(ExportFault::TimestampOutOfRange(v@[row] as int)),
                        },
                        _ => Err(ExportFault::NotTimestampColumn(t)),
                    }
                }
            },
        }
    } else {
        let c = last_index(column_names(b), key);
        if c < 0 {
            Err(ExportFault::UnknownColumn(key))
        } else {
            match b.spec_columns()[c].values {
                ColumnValues::Utf8(v) => Ok(key + seq!['='] + v@[row]@),
                _ => Err(ExportFault::NotTextColumn(key)),
            }
        }
    }
}

/// The key of row `row` over the first `k` partition keys: segments joined by `/`.
pub open spec fn key_prefix(
    b: &ColumnBatch,
    keys: Seq<Seq<char>>,
    ts: Option<Seq<char>>,
    row: int,
    k: int,
) -> Result<Seq<char>, ExportFault>
    decreases k,
{
    if k <= 0 {
        Ok(Seq::empty())
    } else {
        match key_prefix(b, keys, ts, row, k - 1) {
            Err(e) => Err(e),
            Ok(p) => match segment(b, keys[k - 1], ts, row) {
                Err(e) => Err(e),
                Ok(s) => Ok(
                    if k == 1 {
                        s
                    } else {
                        p + seq!['/'] + s
                    },
                ),
            },
        }
    }
}

/// The partition key of row `row`.
pub open spec fn row_key(b: &ColumnBatch, keys: Seq<Seq<char>>, ts: Option<Seq<char>>, row: int) -> Result<
    Seq<char>,
    ExportFault,
> {
    key_prefix(b, keys, ts, row, keys.len() as int)
}

fn key_segment(
    row: usize,
    batch: &ColumnBatch,
    key: &String,
    timestamp_col: &Option<String>,
    idx_map: &StringHashMap<usize>,
) -> (r: Result<String, ExportError>)
    requires
        batch.wf(),
        row < batch.spec_num_rows(),
        is_index_map(idx_map@, column_names(batch)),
    ensures
        match r {
            Ok(s) => segment(batch, key@, opt_view(*timestamp_col), row as int) == Ok::<
                Seq<char>,
                ExportFault,
            >(s@),
            Err(e) => segment(batch, key@, opt_view(*timestamp_col), row as int) == Err::<
                Seq<char>,
                ExportFault,
            >(e@),
        },
{
    let mut out = key.clone();
    push_char(&mut out, '=');
    let ghost names = column_names(batch);
    if is_reserved_key(key.as_str()) {
        match timestamp_col {
            None => Err(ExportError::NoTimestampColumn),
            Some(t) => match idx_map.get(t.as_str()) {
                None => Err(ExportError::UnknownColumn(t.clone())),
                Some(c) => {
                    let c = *c;
                    proof {
                        assert(is_last_index(names, t@, c as int));
                        assert(batch.spec_columns()[c as int].name@ == names[c as int]);
                    }
                    match &batch.columns[c].values {
                        ColumnValues::TimestampMicros(v) => {
                            assert(values_fit(batch.spec_columns()[c as int].values, batch.spec_num_rows()));
                            let us = v[row];
                            match civil_time_of_micros(us) {
                                None => Err(ExportError::TimestampOutOfRange(us)),
                                Some(ct) => {
                                    let comp = time_component(key.as_str(), &ct);
                                    out.append(comp.as_str());
                                    assert(out@ =~= key@ + seq!['='] + comp@);
                                    Ok(out)
                                },
                            }
                        },
                        _ => Err(ExportError::NotTimestampColumn(t.clone())),
                    }
                },
            },
        }
    } else {
        match idx_map.get(key.as_str()) {
            None => Err(ExportError::UnknownColumn(key.clone())),
            Some(c) => {
                let c = *c;
                proof {
                    assert(is_last_index(names, key@, c as int));
                }
                match &batch.columns[c].values {
                    ColumnValues::Utf8(v) => {
                        assert(values_fit(batch.spec_columns()[c as int].values, batch.spec_num_rows()));
                        out.append(v[row].as_str());
                        assert(out@ =~= key@ + seq!['='] + v@[row as int]@);
                        Ok(out)
                    },
                    _ => Err(ExportError::NotTextColumn(key.clone())),
                }
            },
        }
    }
}

/// The partition key of one row: a `column=value` segment per partition key, in order,
/// joined by `/`. A calendar keyword takes its value from the timestamp column.
pub fn build_partition_key(
    row: usize,
    batch: &ColumnBatch,
    partition_by: &Vec<String>,
    timestamp_col: &Option<String>,
    idx_map: &StringHashMap<usize>,
) -> (r: Result<String, ExportError>)
    requires
        batch.wf(),
        row < batch.spec_num_rows(),
        is_index_map(idx_map@, column_names(batch)),
    ensures
        match r {
            Ok(s) => row_key(batch, views(partition_by@), opt_view(*timestamp_col), row as int)
                == Ok::<Seq<char>, ExportFault>(s@),
            Err(e) => row_key(batch, views(partition_by@), opt_view(*timestamp_col), row as int)
                == Err::<Seq<char>, ExportFault>(e@),
        },
{
    let ghost keys = views(partition_by@);
    let ghost ts = opt_view(*timestamp_col);
    let mut out = String::new();
    let mut k: usize = 0;
    while k < partition_by.len()
        invariant
            batch.wf(),
            row < batch.spec_num_rows(),
            is_index_map(idx_map@, column_names(batch)),
            keys == views(partition_by@),
            ts == opt_view(*timestamp_col),
            k <= partition_by@.len(),
            key_prefix(batch, keys, ts, row as int, k as int) == Ok::<Seq<char>, ExportFault>(out@),
        decreases partition_by@.len() - k,
    {
        let seg = key_segment(row, batch, &partition_by[k], timestamp_col, idx_map);
        match seg {
            Err(e) => {
                proof {
                    assert(keys[k as int] == partition_by@[k as int]@);
                    lemma_prefix_fails(batch, keys, ts, row as int, k as int + 1);
                }
                return Err(e);
            },
            Ok(s) => {
                assert(keys[k as int] == partition_by@[k as int]@);
                let ghost before = out@;
                if k > 0 {
                    push_char(&mut out, '/');
                }
                out.append(s.as_str());
                if k > 0 {
                    assert(out@ =~= before + seq!['/'] + s@);
                } else {
                    assert(out@ =~= s@);
                }
                assert(key_prefix(batch, keys, ts, row as int, k + 1) == Ok::<Seq<char>, ExportFault>(out@));
            },
        }
        k = k + 1;
    }
    Ok(out)
}

/// Once the key over the first `k` partition keys fails, the whole key fails the same way.
proof fn lemma_prefix_fails(
    b: &ColumnBatch,
    keys: Seq<Seq<char>>,
    ts: Option<Seq<char>>,
    row: int,
    k: int,
)
    requires
        0 <= k <= keys.len(),
        key_prefix(b, keys, ts, row, k) is Err,
    ensures
        row_key(b, keys, ts, row) == key_prefix(b, keys, ts, row, k),
    decreases keys.len() - k,
{
    if k < keys.len() {
        lemma_prefix_fails(b, keys, ts, row, k + 1);
    }
}

/// Rows of one batch grouped by partition key, groups in order of their first row.
pub struct RowGroups {
    keys: Vec<String>,
    rows: Vec<Vec<u32>>,
    index: StringHashMap<usize>,
}

/// Row-index lists as sequences.
pub open spec fn row_views(v: Seq<Vec<u32>>) -> Seq<Seq<u32>> {
    v.map_values(|x: Vec<u32>| x@)
}

/// Some group holds row `r`.
pub open spec fn holds_row(groups: Seq<Seq<u32>>, r: int) -> bool {
    exists|g: int, i: int| 0 <= g < groups.len() && 0 <= i < groups[g].len() && #[trigger] groups[g][i] == r
}

/// Every row index below `n` stands in exactly one place of exactly one group, and no
/// group holds anything else.
pub open spec fn rows_partitioned(groups: Seq<Seq<u32>>, n: nat) -> bool {
    &&& forall|r: int| 0 <= r < n ==> #[trigger] holds_row(groups, r)
    &&& forall|g1: int, i1: int, g2: int, i2: int|
        0 <= g1 < groups.len() && 0 <= i1 < groups[g1].len() && 0 <= g2 < groups.len() && 0
            <= i2 < groups[g2].len() && #[trigger] groups[g1][i1] == #[trigger] groups[g2][i2]
            ==> g1 == g2 && i1 == i2
    &&& forall|g: int, i: int|
        0 <= g < groups.len() && 0 <= i < groups[g].len() ==> #[trigger] groups[g][i] < n
}

/// `gk` and `gr` are the grouping of the rows below `n` by their partition keys: one group
/// per distinct key, rows ascending within a group, groups ordered by their first row.
pub open spec fn is_grouping(
    b: &ColumnBatch,
    keys: Seq<Seq<char>>,
    ts: Option<Seq<char>>,
    gk: Seq<Seq<char>>,
    gr: Seq<Seq<u32>>,
    n: nat,
) -> bool {
    &&& gk.len() == gr.len()
    &&& forall|g1: int, g2: int|
        0 <= g1 < gk.len() && 0 <= g2 < gk.len() && g1 != g2 ==> #[trigger] gk[g1] != #[trigger] gk[g2]
    &&& forall|g: int| 0 <= g < gr.len() ==> #[trigger] gr[g].len() > 0
    &&& forall|g: int, i: int, j: int|
        0 <= g < gr.len() && 0 <= i < j < gr[g].len() ==> #[trigger] gr[g][i] < #[trigger] gr[g][j]
    &&& forall|g: int, i: int|
        0 <= g < gr.len() && 0 <= i < gr[g].len() ==> #[trigger] gr[g][i] < n && row_key(
            b,
            keys,
            ts,
            gr[g][i] as int,
        ) == Ok::<Seq<char>, ExportFault>(gk[g])
    &&& forall|r: int| 0 <= r < n ==> #[trigger] holds_row(gr, r)
    &&& forall|g1: int, g2: int| 0 <= g1 < g2 < gr.len() ==> #[trigger] gr[g1][0] < #[trigger] gr[g2][0]
}

/// The number of row indices over all groups.
pub open spec fn total_rows(groups: Seq<Seq<u32>>) -> int
    decreases groups.len(),
{
    if groups.len() == 0 {
        0
    } else {
        total_rows(groups.drop_last()) + groups.last().len()
    }
}

proof fn lemma_total_push(groups: Seq<Seq<u32>>, s: Seq<u32>)
    ensures
        total_rows(groups.push(s)) == total_rows(groups) + s.len(),
{
    assert(groups.push(s).drop_last() =~= groups);
}

proof fn lemma_total_update(groups: Seq<Seq<u32>>, g: int, s: Seq<u32>)
    requires
        0 <= g < groups.len(),
    ensures
        total_rows(groups.update(g, s)) == total_rows(groups) - groups[g].len() + s.len(),
    decreases groups.len(),
{
    let u = groups.update(g, s);
    if g == groups.len() - 1 {
        assert(u.drop_last() =~= groups.drop_last());
    } else {
        assert(u.drop_last() =~= groups.drop_last().update(g, s));
        lemma_total_update(groups.drop_last(), g, s);
    }
}

/// What keeps row `r` out of a grouping: its key fails, or its index exceeds 32 bits.
pub open spec fn row_fault(b: &ColumnBatch, keys: Seq<Seq<char>>, ts: Option<Seq<char>>, r: int) -> Option<
    ExportFault,
> {
    match row_key(b, keys, ts, r) {
        Err(e) => Some(e),
        Ok(_) => if r > u32::MAX {
            Some(ExportFault::TooManyRows)
        } else {
            None
        },
    }
}

impl RowGroups {
    pub closed spec fn spec_keys(&self) -> Seq<Seq<char>> {
        views(self.keys@)
    }

    pub closed spec fn spec_rows(&self) -> Seq<Seq<u32>> {
        row_views(self.rows@)
    }

    /// The lookup index agrees with the key list, whose keys are distinct.
    pub closed spec fn wf(&self) -> bool {
        &&& self.keys@.len() == self.rows@.len()
        &&& forall|g1: int, g2: int|
            0 <= g1 < self.keys@.len() && 0 <= g2 < self.keys@.len() && g1 != g2
                ==> #[trigger] self.keys@[g1]@ != #[trigger] self.keys@[g2]@
        &&& forall|k: Seq<char>| #[trigger]
            self.index@.contains_key(k) <==> views(self.keys@).contains(k)
        &&& forall|g: int|
            0 <= g < self.keys@.len() ==> #[trigger] self.index@.contains_key(self.keys@[g]@)
                && self.index@[self.keys@[g]@] == g
    }

    pub fn len(&self) -> (r: usize)
        requires
            self.wf(),
        ensures
            r == self.spec_keys().len(),
    {
        self.keys.len()
    }

    /// The key of group `g`.
    pub fn key(&self, g: usize) -> (r: &String)
        requires
            self.wf(),
            g < self.spec_keys().len(),
        ensures
            r@ == self.spec_keys()[g as int],
    {
        &self.keys[g]
    }

    /// The rows of group `g`, ascending.
    pub fn rows(&self, g: usize) -> (r: &Vec<u32>)
        requires
            self.wf(),
            g < self.spec_keys().len(),
        ensures
            r@ == self.spec_rows()[g as int],
    {
        &self.rows[g]
    }

    /// The rows whose partition key is `key`, if any row has it.
    pub fn get(&self, key: &str) -> (r: Option<&Vec<u32>>)
        requires
            self.wf(),
        ensures
            match r {
                Some(v) => exists|g: int|
                    0 <= g < self.spec_keys().len() && self.spec_keys()[g] == key@
                        && #[trigger] self.spec_rows()[g] == v@,
                None => !self.spec_keys().contains(key@),
            },
    {
        match self.index.get(key) {
            None => None,
            Some(g) => {
                let g = *g;
                proof {
                    let j = choose|j: int| 0 <= j < self.keys@.len() && views(self.keys@)[j] == key@;
                    assert(self.index@[self.keys@[j]@] == j);
                    assert(self.spec_rows()[j] == self.rows@[j]@);
                }
                Some(&self.rows[g])
            },
        }
    }
}

/// Groups the rows of `batch` by partition key. Every row lands in exactly one group;
/// the first row whose key fails, or whose index does not fit 32 bits, ends the work.
pub fn group_rows_by_partition(
    batch: &ColumnBatch,
    partition_by: &Vec<String>,
    timestamp_col: &Option<String>,
) -> (res: Result<RowGroups, ExportError>)
    requires
        batch.wf(),
    ensures
        match res {
            Ok(g) => g.wf() && is_grouping(
                batch,
                views(partition_by@),
                opt_view(*timestamp_col),
                g.spec_keys(),
                g.spec_rows(),
                batch.spec_num_rows(),
            ) && rows_partitioned(g.spec_rows(), batch.spec_num_rows()) && total_rows(g.spec_rows())
                == batch.spec_num_rows() && forall|r: int|
                0 <= r < batch.spec_num_rows() ==> #[trigger] row_fault(
                    batch,
                    views(partition_by@),
                    opt_view(*timestamp_col),
                    r,
                ) is None,
            Err(e) => exists|r0: int|
                0 <= r0 < batch.spec_num_rows() && #[trigger] row_fault(
                    batch,
                    views(partition_by@),
                    opt_view(*timestamp_col),
                    r0,
                ) == Some(e@) && forall|r: int|
                    0 <= r < r0 ==> #[trigger] row_fault(
                        batch,
                        views(partition_by@),
                        opt_view(*timestamp_col),
                        r,
                    ) is None,
        },
{
    let ghost keys = views(partition_by@);
    let ghost ts = opt_view(*timestamp_col);
    let names = batch.column_names();
    let idx_map = build_column_index_map(&names);
    let n = batch.num_rows;
    let mut groups = RowGroups { keys: Vec::new(), rows: Vec::new(), index: StringHashMap::new() };
    assert(groups.spec_rows() =~= Seq::<Seq<u32>>::empty());
    let mut r: usize = 0;
    while r < n
        invariant
            batch.wf(),
            n == batch.spec_num_rows(),
            keys == views(partition_by@),
            ts == opt_view(*timestamp_col),
            is_index_map(idx_map@, column_names(batch)),
            r <= n,
            groups.wf(),
            is_grouping(batch, keys, ts, groups.spec_keys(), groups.spec_rows(), r as nat),
            total_rows(groups.spec_rows()) == r,
            forall|q: int| 0 <= q < r ==> #[trigger] row_fault(batch, keys, ts, q) is None,
        decreases n - r,
    {
        let key = match build_partition_key(r, batch, partition_by, timestamp_col, &idx_map) {
            Ok(k) => k,
            Err(e) => {
                assert(row_fault(batch, keys, ts, r as int) == Some(e@));
                return Err(e);
            },
        };
        if r > 4294967295usize {
            assert(row_fault(batch, keys, ts, r as int) == Some(ExportFault::TooManyRows));
            return Err(ExportError::TooManyRows);
        }
        let row = r as u32;
        let ghost gk = groups.spec_keys();
        let ghost gr = groups.spec_rows();
        match groups.index.get(key.as_str()) {
            Some(g) => {
                let g = *g;
                proof {
                    let j = choose|j: int| 0 <= j < groups.keys@.len() && views(groups.keys@)[j] == key@;
                    assert(groups.index@[groups.keys@[j]@] == j);
                    assert(gk[g as int] == key@);
                }
                groups.rows[g].push(row);
                proof {
                    let ngr = groups.spec_rows();
                    assert(ngr =~= gr.update(g as int, gr[g as int].push(row)));
                    lemma_total_update(gr, g as int, gr[g as int].push(row));
                    assert forall|q: int| 0 <= q <= r implies #[trigger] holds_row(ngr, q) by {
                        if q == r {
                            assert(ngr[g as int][gr[g as int].len() as int] == q);
                        } else {
                            assert(holds_row(gr, q));
                            let (g2, i) = choose|g2: int, i: int|
                                0 <= g2 < gr.len() && 0 <= i < gr[g2].len() && #[trigger] gr[g2][i] == q;
                            assert(ngr[g2][i] == q);
                        }
                    }
                    assert forall|g1: int, g2: int| 0 <= g1 < g2 < ngr.len() implies #[trigger] ngr[g1][0]
                        < #[trigger] ngr[g2][0] by {
                        assert(ngr[g1][0] == gr[g1][0]);
                        assert(ngr[g2][0] == gr[g2][0]);
                    }
                }
            },
            None => {
                proof {
                    assert(!gk.contains(key@));
                }
                let ghost old_keys = groups.keys@;
                groups.index.insert(key.clone(), groups.keys.len());
                groups.keys.push(key);
                let mut fresh: Vec<u32> = Vec::new();
                fresh.push(row);
                groups.rows.push(fresh);
                proof {
                    let ngk = groups.spec_keys();
                    let ngr = groups.spec_rows();
                    assert(ngk =~= gk.push(key@));
                    assert(ngr =~= gr.push(seq![row]));
                    lemma_total_push(gr, seq![row]);
                    assert forall|k: Seq<char>| #[trigger]
                        groups.index@.contains_key(k) <==> views(groups.keys@).contains(k) by {
                        if k == key@ {
                            assert(views(groups.keys@)[gk.len() as int] == k);
                        } else if views(groups.keys@).contains(k) {
                            let j = choose|j: int| 0 <= j < views(groups.keys@).len() && views(groups.keys@)[j] == k;
                            assert(gk[j] == k);
                        } else if gk.contains(k) {
                            let j = choose|j: int| 0 <= j < gk.len() && gk[j] == k;
                            assert(views(groups.keys@)[j] == k);
                        }
                    }
                    assert forall|g: int| 0 <= g < groups.keys@.len() implies #[trigger]
                        groups.index@.contains_key(groups.keys@[g]@) && groups.index@[groups.keys@[g]@] == g by {
                        if g < old_keys.len() {
                            assert(groups.keys@[g] == old_keys[g]);
                            assert(gk[g] == old_keys[g]@);
                        }
                    }
                    assert forall|q: int| 0 <= q <= r implies #[trigger] holds_row(ngr, q) by {
                        if q == r {
                            assert(ngr[gr.len() as int][0] == q);
                        } else {
                            assert(holds_row(gr, q));
                            let (g2, i) = choose|g2: int, i: int|
                                0 <= g2 < gr.len() && 0 <= i < gr[g2].len() && #[trigger] gr[g2][i] == q;
                            assert(ngr[g2][i] == q);
                        }
                    }
                }
            },
        }
        r = r + 1;
    }
    proof {
        lemma_grouping_partitions_rows(batch, keys, ts, groups.spec_keys(), groups.spec_rows(), n as nat);
    }
    Ok(groups)
}

/// Grouping rows by partition key is total and disjoint: in any grouping of the rows of a
/// batch by their keys, every row index appears exactly once over all groups.
pub proof fn lemma_grouping_partitions_rows(
    b: &ColumnBatch,
    keys: Seq<Seq<char>>,
    ts: Option<Seq<char>>,
    gk: Seq<Seq<char>>,
    gr: Seq<Seq<u32>>,
    n: nat,
)
    requires
        is_grouping(b, keys, ts, gk, gr, n),
    ensures
        rows_partitioned(gr, n),
{
    assert forall|g1: int, i1: int, g2: int, i2: int|
        0 <= g1 < gr.len() && 0 <= i1 < gr[g1].len() && 0 <= g2 < gr.len() && 0 <= i2 < gr[g2].len()
            && #[trigger] gr[g1][i1] == #[trigger] gr[g2][i2] implies g1 == g2 && i1 == i2 by {
        assert(row_key(b, keys, ts, gr[g1][i1] as int) == Ok::<Seq<char>, ExportFault>(gk[g1]));
        assert(row_key(b, keys, ts, gr[g2][i2] as int) == Ok::<Seq<char>, ExportFault>(gk[g2]));
        if i1 < i2 {
            assert(gr[g1][i1] < gr[g1][i2]);
        } else if i2 < i1 {
            assert(gr[g1][i2] < gr[g1][i1]);
        }
    }
}

/// The message that describes a failure.
pub open spec fn fault_message(f: ExportFault) -> Seq<char> {
    match f {
        ExportFault::ReservedKeyWithoutTimestamp(k) => "reserved partition key `"@ + k
            + "`, but --timestamp-col is not set"@,
        ExportFault::NoTimestampColumn => "timestamp_col must be set for time-based partitioning"@,
        ExportFault::UnknownColumn(c) => "column not found: "@ + c,
        ExportFault::NotTextColumn(c) => "string type mismatch in column "@ + c,
        ExportFault::NotTimestampColumn(c) => "timestamp type mismatch in column "@ + c,
        ExportFault::TimestampOutOfRange(v) => "invalid timestamp value "@ + signed_decimal(v),
        ExportFault::TooManyRows => "row index does not fit in 32 bits"@,
    }
}

impl ExportError {
    /// A one-line description of the failure.
    pub fn message(&self) -> (r: String)
        ensures
            r@ == fault_message(self@),
    {
        match self {
            ExportError::ReservedKeyWithoutTimestamp(k) => {
                let mut m = String::from_str("reserved partition key `");
                m.append(k.as_str());
                m.append("`, but --timestamp-col is not set");
                m
            },
            ExportError::NoTimestampColumn => String::from_str(
                "timestamp_col must be set for time-based partitioning",
            ),
            ExportError::UnknownColumn(c) => String::from_str("column not found: ").concat(c.as_str()),
            ExportError::NotTextColumn(c) => String::from_str("string type mismatch in column ").concat(
                c.as_str(),
            ),
            ExportError::NotTimestampColumn(c) => String::from_str(
                "timestamp type mismatch in column ",
            ).concat(c.as_str()),
            ExportError::TimestampOutOfRange(v) => {
                let mut m = String::from_str("invalid timestamp value ");
                push_signed_decimal(&mut m, *v);
                m
            },
            ExportError::TooManyRows => String::from_str("row index does not fit in 32 bits"),
        }
    }
}

/// Calendar keywords need a timestamp column: with none named, the first partition key
/// that is a calendar keyword is rejected before any row is read.
pub fn validate_partition_keys(partition_by: &Vec<String>, timestamp_col: &Option<String>) -> (r:
    Result<(), ExportError>)
    ensures
        match r {
            Ok(_) => timestamp_col.is_some() || forall|k: int|
                0 <= k < partition_by@.len() ==> !is_reserved(#[trigger] partition_by@[k]@),
            Err(e) => timestamp_col.is_none() && exists|k: int|
                0 <= k < partition_by@.len() && is_reserved(#[trigger] partition_by@[k]@) && e@
                    == ExportFault::ReservedKeyWithoutTimestamp(partition_by@[k]@) && forall|j: int|
                    0 <= j < k ==> !is_reserved(#[trigger] partition_by@[j]@),
        },
{
    if timestamp_col.is_none() {
        let mut k: usize = 0;
        while k < partition_by.len()
            invariant
                timestamp_col.is_none(),
                k <= partition_by@.len(),
                forall|j: int| 0 <= j < k ==> !is_reserved(#[trigger] partition_by@[j]@),
            decreases partition_by@.len() - k,
        {
            if is_reserved_key(partition_by[k].as_str()) {
                let e = ExportError::ReservedKeyWithoutTimestamp(partition_by[k].clone());
                assert(is_reserved(partition_by@[k as int]@));
                assert(e@ == ExportFault::ReservedKeyWithoutTimestamp(partition_by@[k as int]@));
                return Err(e);
            }
            k = k + 1;
        }
    }
    Ok(())
}

/// The directory of one partition: `output_dir/table/<key>`.
pub open spec fn partition_dir(output_dir: Seq<char>, table: Seq<char>, key: Seq<char>) -> Seq<char> {
    join_path(join_path(output_dir, table), key)
}

/// The one file written for a partition.
pub open spec fn partition_file_name() -> Seq<char> {
    "part-00000.parquet"@
}

/// The file written when no partition key is given: `output_dir/table.parquet`.
pub open spec fn single_file_path(output_dir: Seq<char>, table: Seq<char>) -> Seq<char> {
    join_path(output_dir, table + ".parquet"@)
}

/// One output file of a partitioned export: its key, where it goes, and which rows it holds.
pub struct PartitionFile {
    pub key: String,
    pub dir: String,
    pub path: String,
    pub rows: Vec<u32>,
}

/// Where an export writes.
pub enum ExportPlan {
    /// No partition key: the whole batch goes to one file.
    Single { dir: String, path: String },
    /// One file per partition key, each holding the rows of its group.
    Partitioned(Vec<PartitionFile>),
}

/// Keys of a list of partition files.
pub open spec fn file_keys(files: Seq<PartitionFile>) -> Seq<Seq<char>> {
    files.map_values(|f: PartitionFile| f.key@)
}

/// Row lists of a list of partition files.
pub open spec fn file_rows(files: Seq<PartitionFile>) -> Seq<Seq<u32>> {
    files.map_values(|f: PartitionFile| f.rows@)
}

/// Plans an export: checks the partition keys, groups the rows in memory, and names one
/// file per group under `output_dir/table/<key>/`, or a single `output_dir/table.parquet`
/// when there is no partition key.
pub fn plan_export(
    batch: &ColumnBatch,
    partition_by: &Vec<String>,
    timestamp_col: &Option<String>,
    output_dir: &str,
    table: &str,
) -> (res: Result<ExportPlan, ExportError>)
    requires
        batch.wf(),
    ensures
        ({
            let keys = views(partition_by@);
            let ts = opt_view(*timestamp_col);
            let n = batch.spec_num_rows();
            let reserved_unbound = timestamp_col.is_none() && exists|k: int|
                0 <= k < keys.len() && is_reserved(#[trigger] keys[k]);
            match res {
                Ok(ExportPlan::Single { dir, path }) => partition_by@.len() == 0 && dir@
                    == output_dir@ && path@ == single_file_path(output_dir@, table@),
                Ok(ExportPlan::Partitioned(files)) => {
                    &&& partition_by@.len() > 0
                    &&& !reserved_unbound
                    &&& is_grouping(batch, keys, ts, file_keys(files@), file_rows(files@), n)
                    &&& rows_partitioned(file_rows(files@), n)
                    &&& total_rows(file_rows(files@)) == n
                    &&& forall|g: int|
                        0 <= g < files@.len() ==> (#[trigger] files@[g]).dir@ == partition_dir(
                            output_dir@,
                            table@,
                            files@[g].key@,
                        ) && files@[g].path@ == join_path(files@[g].dir@, partition_file_name())
                },
                Err(e) => partition_by@.len() > 0 && (reserved_unbound || exists|r0: int|
                    0 <= r0 < n && #[trigger] row_fault(batch, keys, ts, r0) == Some(e@)
                        && forall|r: int| 0 <= r < r0 ==> #[trigger] row_fault(batch, keys, ts, r) is None)
                    && (reserved_unbound ==> exists|k: int|
                    0 <= k < keys.len() && is_reserved(#[trigger] keys[k]) && e@
                        == ExportFault::ReservedKeyWithoutTimestamp(keys[k]) && forall|j: int|
                        0 <= j < k ==> !is_reserved(#[trigger] keys[j])),
            }
        }),
{
    let ghost keys = views(partition_by@);
    if partition_by.len() == 0 {
        let dir = String::from_str(output_dir);
        let mut path = String::from_str(output_dir);
        let file = String::from_str(table).concat(".parquet");
        push_path(&mut path, file.as_str());
        return Ok(ExportPlan::Single { dir, path });
    }
    match validate_partition_keys(partition_by, timestamp_col) {
        Err(e) => {
            proof {
                let k = choose|k: int|
                    0 <= k < partition_by@.len() && is_reserved(#[trigger] partition_by@[k]@) && e@
                        == ExportFault::ReservedKeyWithoutTimestamp(partition_by@[k]@) && forall|j: int|
                        0 <= j < k ==> !is_reserved(#[trigger] partition_by@[j]@);
                assert(keys[k] == partition_by@[k]@);
                assert forall|j: int| 0 <= j < k implies !is_reserved(#[trigger] keys[j]) by {
                    assert(keys[j] == partition_by@[j]@);
                }
            }
            return Err(e);
        },
        Ok(()) => {
            proof {
                if timestamp_col.is_none() {
                    assert forall|k: int| 0 <= k < keys.len() implies !is_reserved(#[trigger] keys[k]) by {
                        assert(keys[k] == partition_by@[k]@);
                    }
                }
            }
        },
    }
    let groups = group_rows_by_partition(batch, partition_by, timestamp_col)?;
    let mut base = String::from_str(output_dir);
    push_path(&mut base, table);
    let mut files: Vec<PartitionFile> = Vec::new();
    let count = groups.len();
    let mut g: usize = 0;
    while g < count
        invariant
            groups.wf(),
            count == groups.spec_keys().len(),
            g <= count,
            base@ == join_path(output_dir@, table@),
            files@.len() == g,
            forall|j: int|
                0 <= j < g ==> (#[trigger] files@[j]).key@ == groups.spec_keys()[j] && files@[j].rows@
                    == groups.spec_rows()[j] && files@[j].dir@ == partition_dir(
                    output_dir@,
                    table@,
                    files@[j].key@,
                ) && files@[j].path@ == join_path(files@[j].dir@, partition_file_name()),
        decreases count - g,
    {
        let key = groups.key(g).clone();
        let mut dir = base.clone();
        push_path(&mut dir, key.as_str());
        let mut path = dir.clone();
        push_path(&mut path, "part-00000.parquet");
        let rows = groups.rows(g).clone();
        files.push(PartitionFile { key, dir, path, rows });
        g = g + 1;
    }
    proof {
        assert(file_keys(files@) =~= groups.spec_keys());
        assert(file_rows(files@) =~= groups.spec_rows());
    }
    Ok(ExportPlan::Partitioned(files))
}

} // verus!
