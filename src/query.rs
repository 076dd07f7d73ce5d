//! Decisions of the query and table-listing endpoints: response format, the query
//! text in a form body, and the errors reported to clients.

use vstd::prelude::*;
use crate::text::{is_last_index, last_index, lemma_last_index, same_text, views};

verus! {

#[verifier::external_type_specification]
#[verifier::external_body]
pub struct ExFormError(serde_urlencoded::de::Error);

/// How result batches are rendered in a response.
#[derive(Debug, Clone, Copy, PartialEq, Eq, Structural)]
pub enum OutputFormat {
    Json,
    Csv,
    Text,
}

/// The format for an `Accept` value on the query endpoint: JSON and CSV when asked
/// for exactly, a text table otherwise, also when no value is given.
pub open spec fn spec_query_format(accept: Option<Seq<char>>) -> OutputFormat {
    match accept {
        Some(a) => if a == "application/json"@ {
            OutputFormat::Json
        } else if a == "text/csv"@ {
            OutputFormat::Csv
        } else {
            OutputFormat::Text
        },
        None => OutputFormat::Text,
    }
}

/// The format for an `Accept` value on the table listing: CSV and text when asked for
/// exactly, JSON otherwise, also when no value is given.
pub open spec fn spec_tables_format(accept: Option<Seq<char>>) -> OutputFormat {
    match accept {
        Some(a) => if a == "text/csv"@ {
            OutputFormat::Csv
        } else if a == "text/plain"@ {
            OutputFormat::Text
        } else {
            OutputFormat::Json
        },
        None => OutputFormat::Json,
    }
}

/// Text view of an optional header value.
pub open spec fn opt_str_view(o: Option<&str>) -> Option<Seq<char>> {
    match o {
        Some(s) => Some(s@),
        None => None,
    }
}

/// The response format of the query endpoint for the request's `Accept` value.
pub fn determine_output_format(accept: Option<&str>) -> (r: OutputFormat)
    ensures
        r == spec_query_format(opt_str_view(accept)),
{
    match accept {
        Some(a) => if same_text(a, "application/json") {
            OutputFormat::Json
        } else if same_text(a, "text/csv") {
            OutputFormat::Csv
        } else {
            OutputFormat::Text
        },
        None => OutputFormat::Text,
    }
}

/// The response format of the table listing for the request's `Accept` value.
pub fn determine_tables_output_format(accept: Option<&str>) -> (r: OutputFormat)
    ensures
        r == spec_tables_format(opt_str_view(accept)),
{
    match accept {
        Some(a) => if same_text(a, "text/csv") {
            OutputFormat::Csv
        } else if same_text(a, "text/plain") {
            OutputFormat::Text
        } else {
            OutputFormat::Json
        },
        None => OutputFormat::Json,
    }
}

/// The `Content-Type` of a response in the given format.
pub open spec fn spec_content_type(format: OutputFormat) -> Seq<char> {
    match format {
        OutputFormat::Json => "application/json"@,
        OutputFormat::Csv => "text/csv"@,
        OutputFormat::Text => "text/plain"@,
    }
}

/// The `Content-Type` of a response in the given format.
pub fn determine_content_type(format: &OutputFormat) -> (r: &'static str)
    ensures
        r@ == spec_content_type(*format),
{
    match format {
        OutputFormat::Json => "application/json",
        OutputFormat::Csv => "text/csv",
        OutputFormat::Text => "text/plain",
    }
}

/// The format named on a command line: `json`, `csv`, anything else a text table.
pub fn format_from_name(name: &str) -> (r: OutputFormat)
    ensures
        r == (if name@ == "json"@ {
            OutputFormat::Json
        } else if name@ == "csv"@ {
            OutputFormat::Csv
        } else {
            OutputFormat::Text
        }),
{
    if same_text(name, "json") {
        OutputFormat::Json
    } else if same_text(name, "csv") {
        OutputFormat::Csv
    } else {
        OutputFormat::Text
    }
}

/// A failure of the query engine, reported to the client.
#[derive(Debug, PartialEq, Eq)]
pub struct PlanoServerError {
    pub reason: String,
}

impl PlanoServerError {
    /// The text shown to clients.
    pub fn message(&self) -> (r: String)
        ensures
            r@ == "Plano Server Error: "@ + self.reason@,
    {
        String::from_str("Plano Server Error: ").concat(self.reason.as_str())
    }
}

/// A request the server cannot act on.
#[derive(Debug, PartialEq, Eq)]
pub struct PlanoBadRequest {
    pub reason: String,
}

impl PlanoBadRequest {
    /// The text shown to clients.
    pub fn message(&self) -> (r: String)
        ensures
            r@ == "Bad Request: "@ + self.reason@,
    {
        String::from_str("Bad Request: ").concat(self.reason.as_str())
    }
}

/// Names of a list of form pairs.
pub open spec fn pair_names(form: Seq<(String, String)>) -> Seq<Seq<char>> {
    form.map_values(|p: (String, String)| p.0@)
}

/// Text views of a list of form pairs.
pub open spec fn pair_views(form: Seq<(String, String)>) -> Seq<(Seq<char>, Seq<char>)> {
    form.map_values(|p: (String, String)| (p.0@, p.1@))
}

/// The query text of a form: the value of its last `sql` field, as a map built from the
/// pairs in order would hold it.
pub fn extract_query(form: &Vec<(String, String)>) -> (r: Result<&String, PlanoBadRequest>)
    ensures
        match r {
            Ok(q) => {
                let k = last_index(pair_names(form@), "sql"@);
                k >= 0 && *q == form@[k].1
            },
            Err(e) => !pair_names(form@).contains("sql"@) && e.reason@ == "no 'sql' key in request"@,
        },
{
    let ghost names = pair_names(form@);
    let mut k: usize = form.len();
    while k > 0
        invariant
            k <= form@.len(),
            names == pair_names(form@),
            forall|j: int| k <= j < form@.len() ==> names[j] != "sql"@,
        decreases k,
    {
        if same_text(form[k - 1].0.as_str(), "sql") {
            proof {
                assert(is_last_index(names, "sql"@, k - 1));
                lemma_last_index(names, "sql"@, k - 1);
            }
            return Ok(&form[k - 1].1);
        }
        k = k - 1;
    }
    proof {
        if names.contains("sql"@) {
            let j = choose|j: int| 0 <= j < names.len() && names[j] == "sql"@;
            assert(names[j] != "sql"@);
        }
    }
    Err(PlanoBadRequest { reason: String::from_str("no 'sql' key in request") })
}

/// The `name=value` pairs of a URL-encoded form body, decoded, in order.
pub uninterp spec fn form_pairs(body: Seq<u8>) -> Seq<(Seq<char>, Seq<char>)>;

/// Relies on `serde_urlencoded::from_bytes` into a list of string pairs: the body's
/// pairs, percent-decoded, in the order they appear. Into string pairs the decoding does
/// not fail: each part is handed out as a string and each pair has its two parts.
#[verifier::external_body]
fn decode_form(body: &[u8]) -> (r: Result<Vec<(String, String)>, serde_urlencoded::de::Error>)
    ensures
        r is Ok,
        r matches Ok(pairs) ==> pair_views(pairs@) == form_pairs(body@),
{
    serde_urlencoded::from_bytes::<Vec<(String, String)>>(body)
}

/// Reads the query text from a URL-encoded form body: a body that cannot be decoded,
/// or that has no `sql` field, is a bad request.
pub fn query_from_body(body: &[u8]) -> (r: Result<String, PlanoBadRequest>)
    ensures
        r is Ok <==> form_pairs(body@).map_values(|p: (Seq<char>, Seq<char>)| p.0).contains(
            "sql"@,
        ),
        r matches Ok(q) ==> {
            let pairs = form_pairs(body@);
            let k = last_index(pairs.map_values(|p: (Seq<char>, Seq<char>)| p.0), "sql"@);
            k >= 0 && q@ == pairs[k].1
        },
        r matches Err(e) ==> e.reason@ == "no 'sql' key in request"@,
{
    match decode_form(body) {
        Err(e) => Err(PlanoBadRequest { reason: e.to_string() }),
        Ok(pairs) => {
            proof {
                assert(pair_names(pairs@) =~= form_pairs(body@).map_values(
                    |p: (Seq<char>, Seq<char>)| p.0,
                ));
            }
            match extract_query(&pairs) {
                Ok(q) => {
                    proof {
                        let k = last_index(pair_names(pairs@), "sql"@);
                        assert(pair_views(pairs@)[k] == (pairs@[k].0@, pairs@[k].1@));
                    }
                    Ok(q.clone())
                },
                Err(e) => Err(e),
            }
        },
    }
}

/// The statement that counts the rows of a table.
pub fn count_query(table: &str) -> (r: String)
    ensures
        r@ == "SELECT COUNT(*) AS cnt FROM "@ + table@,
{
    String::from_str("SELECT COUNT(*) AS cnt FROM ").concat(table)
}

/// The gRPC query service. It acknowledges every statement and answers with no rows.
#[derive(Debug)]
pub struct MyQueryService;

impl MyQueryService {
    /// The rows answered for a statement: always none.
    pub fn run_query(&self, sql: &str) -> (rows: Vec<String>)
        ensures
            rows@.len() == 0,
    {
        Vec::new()
    }
}

/// Column names separated by `, `.
pub open spec fn column_list(names: Seq<Seq<char>>) -> Seq<char>
    decreases names.len(),
{
    if names.len() == 0 {
        Seq::empty()
    } else if names.len() == 1 {
        names[0]
    } else {
        column_list(names.drop_last()) + ", "@ + names.last()
    }
}

/// The statement that reads the given columns of every row of a table.
pub fn select_query(columns: &Vec<String>, table: &str) -> (r: String)
    ensures
        r@ == "SELECT "@ + column_list(views(columns@)) + " FROM "@ + table@,
{
    let ghost names = views(columns@);
    let mut out = String::from_str("SELECT ");
    let ghost head = out@;
    let mut k: usize = 0;
    while k < columns.len()
        invariant
            names == views(columns@),
            k <= columns@.len(),
            head == "SELECT "@,
            out@ == head + column_list(names.take(k as int)),
        decreases columns@.len() - k,
    {
        let ghost before = out@;
        if k > 0 {
            out.append(", ");
        }
        out.append(columns[k].as_str());
        proof {
            let pre = names.take(k + 1);
            assert(pre.drop_last() =~= names.take(k as int));
            assert(pre.last() == columns@[k as int]@);
            if k > 0 {
                assert(out@ =~= head + (column_list(names.take(k as int)) + ", "@ + pre.last()));
            } else {
                assert(names.take(0) =~= Seq::<Seq<char>>::empty());
                assert(out@ =~= head + pre.last());
            }
        }
        k = k + 1;
    }
    assert(names.take(k as int) =~= names);
    out.append(" FROM ");
    out.append(table);
    out
}

} // verus!
