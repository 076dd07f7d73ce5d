//! Table descriptors given on the command line: `name=root[:col1,col2,...]`.

use vstd::prelude::*;
use crate::text::{
    contains_char, find_first, find_last, first_index, is_first_index, join_with,
    last_index, lemma_first_index, lemma_join_excludes, lemma_last_index, lemma_split_join,
    all_distinct, same_text, split_on, split_text, views,
};

verus! {

/// A single table registration: the SQL name, the root location of its files,
/// and the column names encoded in its directory layout.
#[derive(Debug)]
pub struct TableSpec {
    pub name: String,
    pub root: String,
    pub partitions: Vec<String>,
}

/// Root and partition-list text of what follows the first `=`: the text is cut at
/// its last `:` only when what follows that colon holds no `/`.
pub open spec fn root_and_list(rest: Seq<char>) -> (Seq<char>, Seq<char>) {
    let j = last_index(rest, ':');
    if j < 0 || rest.skip(j + 1).contains('/') {
        (rest, Seq::empty())
    } else {
        (rest.take(j), rest.skip(j + 1))
    }
}

/// Column names of a partition list: none for empty text, else its comma-separated pieces.
pub open spec fn partition_list(list: Seq<char>) -> Seq<Seq<char>> {
    if list.len() == 0 {
        Seq::empty()
    } else {
        split_on(list, ',')
    }
}

/// What a table-spec string describes as (name, root, partitions). `None` when it holds
/// no `=`, or when the name or the root is empty, or a partition name repeats.
pub open spec fn spec_parse(s: Seq<char>) -> Option<(Seq<char>, Seq<char>, Seq<Seq<char>>)> {
    let i = first_index(s, '=');
    if i < 0 {
        None
    } else {
        let (root, list) = root_and_list(s.skip(i + 1));
        let name = s.take(i);
        let partitions = partition_list(list);
        if name.len() == 0 || root.len() == 0 || !partitions.no_duplicates() {
            None
        } else {
            Some((name, root, partitions))
        }
    }
}

/// The message of a rejected table-spec, quoting the offending text.
pub open spec fn invalid_spec_message(s: Seq<char>) -> Seq<char> {
    "Invalid table-spec `"@ + s + "`"@
}

/// The message of a rejected `name=glob` pair.
pub open spec fn invalid_table_message() -> Seq<char> {
    "Expected format: name=glob"@
}

impl TableSpec {
    pub open spec fn view_parts(&self) -> (Seq<char>, Seq<char>, Seq<Seq<char>>) {
        (self.name@, self.root@, views(self.partitions@))
    }

    /// Parses `name=root[:col1,col2,...]`. The root may itself hold colons (`s3://...`):
    /// only a last colon whose tail holds no `/` starts the partition list.
    pub fn parse(s: &str) -> (r: Result<TableSpec, String>)
        ensures
            match r {
                Ok(t) => {
                    &&& spec_parse(s@) == Some(t.view_parts())
                    &&& t.name@.len() > 0
                    &&& t.root@.len() > 0
                    &&& views(t.partitions@).no_duplicates()
                },
                Err(e) => spec_parse(s@).is_none() && e@ == invalid_spec_message(s@),
            },
    {
        let n = s.unicode_len();
        let eq = find_first(s, '=');
        match eq {
            None => Err(invalid_spec(s)),
            Some(i) => {
                let name = String::from_str(s.substring_char(0, i));
                let rest = s.substring_char(i + 1, n);
                let rn = rest.unicode_len();
                let mut root_end: usize = rn;
                let mut list_start: usize = rn;
                match find_last(rest, ':') {
                    None => {},
                    Some(j) => {
                        let tail = rest.substring_char(j + 1, rn);
                        if !contains_char(tail, '/') {
                            root_end = j;
                            list_start = j + 1;
                        }
                    },
                }
                let root = String::from_str(rest.substring_char(0, root_end));
                let list = rest.substring_char(list_start, rn);
                let partitions = if list.unicode_len() == 0 {
                    Vec::new()
                } else {
                    split_text(list, ',')
                };
                proof {
                    assert(rest@ =~= s@.skip(i + 1));
                    let (sr, sl) = root_and_list(rest@);
                    assert(root@ =~= sr);
                    assert(list@ =~= sl);
                    if list@.len() == 0 {
                        assert(views(partitions@) =~= Seq::<Seq<char>>::empty());
                    }
                    assert(name@ =~= s@.take(i as int));
                }
                if name.as_str().unicode_len() == 0 || root.as_str().unicode_len() == 0
                    || !all_distinct(&partitions) {
                    return Err(invalid_spec(s));
                }
                Ok(TableSpec { name, root, partitions })
            },
        }
    }
}

/// The rejection of `s` as a table-spec, quoting it.
fn invalid_spec(s: &str) -> (e: String)
    ensures
        e@ == invalid_spec_message(s@),
{
    let mut msg = String::from_str("Invalid table-spec `");
    msg.append(s);
    msg.append("`");
    msg
}

/// Parses every table-spec in order, stopping at the first that is rejected.
pub fn parse_table_spec(specs: &Vec<String>) -> (r: Result<Vec<TableSpec>, String>)
    ensures
        match r {
            Ok(v) => v@.len() == specs@.len() && forall|k: int|
                0 <= k < specs@.len() ==> spec_parse(#[trigger] specs@[k]@) == Some(
                    v@[k].view_parts(),
                ),
            Err(e) => exists|k: int|
                0 <= k < specs@.len() && spec_parse(#[trigger] specs@[k]@).is_none() && (
                forall|m: int| 0 <= m < k ==> spec_parse(#[trigger] specs@[m]@).is_some())
                    && e@ == invalid_spec_message(specs@[k]@),
        },
{
    let mut out: Vec<TableSpec> = Vec::new();
    let mut k: usize = 0;
    while k < specs.len()
        invariant
            k <= specs@.len(),
            out@.len() == k,
            forall|m: int| 0 <= m < k ==> spec_parse(#[trigger] specs@[m]@) == Some(
                out@[m].view_parts(),
            ),
        decreases specs@.len() - k,
    {
        match TableSpec::parse(specs[k].as_str()) {
            Ok(t) => out.push(t),
            Err(e) => {
                assert(forall|m: int| 0 <= m < k ==> spec_parse(#[trigger] specs@[m]@).is_some());
                return Err(e);
            },
        }
        k = k + 1;
    }
    Ok(out)
}

/// Parses a `name=glob` pair at its first `=`.
pub fn parse_table(s: &str) -> (r: Result<(String, String), String>)
    ensures
        match r {
            Ok((name, pattern)) => {
                let i = first_index(s@, '=');
                i >= 0 && name@ == s@.take(i) && pattern@ == s@.skip(i + 1)
            },
            Err(e) => !s@.contains('=') && e@ == invalid_table_message(),
        },
{
    let n = s.unicode_len();
    match find_first(s, '=') {
        None => Err(String::from_str("Expected format: name=glob")),
        Some(i) => {
            let name = String::from_str(s.substring_char(0, i));
            let pattern = String::from_str(s.substring_char(i + 1, n));
            proof {
                assert(name@ =~= s@.take(i as int));
                assert(pattern@ =~= s@.skip(i + 1));
            }
            Ok((name, pattern))
        },
    }
}

/// A table-spec written as `name=root:col1,col2,...` parses back into that name, root and
/// column list, whenever the name is non-empty and holds no `=`, the root is non-empty (it
/// may hold any character), and the column names are distinct, non-empty and hold no `,`,
/// `:` or `/`.
pub proof fn lemma_parse_written_spec(name: Seq<char>, root: Seq<char>, cols: Seq<Seq<char>>)
    requires
        name.len() > 0,
        !name.contains('='),
        root.len() > 0,
        cols.no_duplicates(),
        cols.len() >= 1,
        forall|k: int|
            0 <= k < cols.len() ==> (#[trigger] cols[k]).len() > 0 && !cols[k].contains(',')
                && !cols[k].contains(':') && !cols[k].contains('/'),
    ensures
        spec_parse(name + seq!['='] + root + seq![':'] + join_with(cols, ',')) == Some(
            (name, root, cols),
        ),
{
    let list = join_with(cols, ',');
    let rest = root + seq![':'] + list;
    let s = name + seq!['='] + rest;
    assert(s =~= name + seq!['='] + root + seq![':'] + list);
    assert forall|k: int| 0 <= k < name.len() implies s[k] != '=' by {
        assert(s[k] == name[k]);
    }
    assert(s[name.len() as int] == '=');
    lemma_first_index(s, '=', name.len() as int);
    assert(s.skip(name.len() as int + 1) =~= rest);
    assert(s.take(name.len() as int) =~= name);
    lemma_join_excludes(cols, ',', ':');
    lemma_join_excludes(cols, ',', '/');
    assert forall|k: int| root.len() < k < rest.len() implies rest[k] != ':' by {
        assert(rest[k] == list[k - root.len() - 1]);
    }
    assert(rest[root.len() as int] == ':');
    lemma_last_index(rest, ':', root.len() as int);
    assert(rest.skip(root.len() as int + 1) =~= list);
    assert(rest.take(root.len() as int) =~= root);
    assert forall|k: int| 0 <= k < cols.len() implies !(#[trigger] cols[k]).contains(',') by {}
    lemma_split_join(cols, ',');
    if cols.len() == 1 {
        assert(list == cols[0]);
    } else {
        assert(list.len() >= cols[0].len());
    }
}

/// A string that holds no `=` is rejected as a table-spec.
pub proof fn lemma_parse_needs_equals(s: Seq<char>)
    requires
        !s.contains('='),
    ensures
        spec_parse(s).is_none(),
{
    assert(!exists|i: int| is_first_index(s, '=', i));
}

/// Roots of a list of table specs.
pub open spec fn spec_roots(specs: Seq<TableSpec>) -> Seq<Seq<char>> {
    specs.map_values(|t: TableSpec| t.root@)
}

/// Whether spec `i` is the first with its root.
pub open spec fn first_with_root(roots: Seq<Seq<char>>, i: int) -> bool {
    forall|j: int| 0 <= j < i ==> roots[j] != roots[i]
}

/// Positions of the specs whose root appears for the first time, ascending: each storage
/// location is set up once even when several tables share it.
pub fn first_of_each_root(specs: &Vec<TableSpec>) -> (r: Vec<usize>)
    ensures
        forall|k: int| 0 <= k < r@.len() ==> #[trigger] r@[k] < specs@.len() && first_with_root(
            spec_roots(specs@),
            r@[k] as int,
        ),
        forall|k1: int, k2: int| 0 <= k1 < k2 < r@.len() ==> #[trigger] r@[k1] < #[trigger] r@[k2],
        forall|i: int|
            0 <= i < specs@.len() && first_with_root(spec_roots(specs@), i) ==> r@.contains(
                i as usize,
            ),
{
    let ghost roots = spec_roots(specs@);
    let mut out: Vec<usize> = Vec::new();
    let mut i: usize = 0;
    while i < specs.len()
        invariant
            roots == spec_roots(specs@),
            i <= specs@.len(),
            forall|k: int| 0 <= k < out@.len() ==> #[trigger] out@[k] < i && first_with_root(
                roots,
                out@[k] as int,
            ),
            forall|k1: int, k2: int| 0 <= k1 < k2 < out@.len() ==> #[trigger] out@[k1] < #[trigger] out@[k2],
            forall|m: int| 0 <= m < i && first_with_root(roots, m) ==> out@.contains(m as usize),
        decreases specs@.len() - i,
    {
        let mut j: usize = 0;
        let mut seen = false;
        while j < i
            invariant
                roots == spec_roots(specs@),
                i < specs@.len(),
                j <= i,
                !seen ==> forall|q: int| 0 <= q < j ==> roots[q] != roots[i as int],
                seen ==> !first_with_root(roots, i as int),
            decreases i - j,
        {
            if same_text(specs[j].root.as_str(), specs[i].root.as_str()) {
                assert(roots[j as int] == roots[i as int]);
                seen = true;
            }
            j = j + 1;
        }
        if !seen {
            let ghost before = out@;
            out.push(i);
            proof {
                assert(out@[before.len() as int] == i);
                assert forall|m: int| 0 <= m <= i && first_with_root(roots, m) implies out@.contains(
                    m as usize,
                ) by {
                    if m < i {
                        let k = choose|k: int| 0 <= k < before.len() && before[k] == m as usize;
                        assert(out@[k] == m as usize);
                    }
                }
            }
        }
        i = i + 1;
    }
    out
}

} // verus!
