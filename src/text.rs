//! Character-sequence helpers shared by the parsers and key builders.

use vstd::prelude::*;

verus! {

/// Relies on `String::push`: the character is appended at the end.
#[verifier::external_body]
pub(crate) fn push_char(s: &mut String, c: char)
    ensures
        final(s)@ == old(s)@.push(c),
{
    s.push(c);
}

/// `i` is the position of the first `c` in `s`.
pub open spec fn is_first_index<A>(s: Seq<A>, c: A, i: int) -> bool {
    &&& 0 <= i < s.len()
    &&& s[i] == c
    &&& forall|k: int| 0 <= k < i ==> s[k] != c
}

/// `i` is the position of the last `c` in `s`.
pub open spec fn is_last_index<A>(s: Seq<A>, c: A, i: int) -> bool {
    &&& 0 <= i < s.len()
    &&& s[i] == c
    &&& forall|k: int| i < k < s.len() ==> s[k] != c
}

/// Position of the first `c` in `s`, or -1 when there is none.
pub open spec fn first_index<A>(s: Seq<A>, c: A) -> int {
    if exists|i: int| is_first_index::<A>(s, c, i) {
        choose|i: int| is_first_index::<A>(s, c, i)
    } else {
        -1
    }
}

/// Position of the last `c` in `s`, or -1 when there is none.
pub open spec fn last_index<A>(s: Seq<A>, c: A) -> int {
    if exists|i: int| is_last_index::<A>(s, c, i) {
        choose|i: int| is_last_index::<A>(s, c, i)
    } else {
        -1
    }
}

pub proof fn lemma_first_index<A>(s: Seq<A>, c: A, i: int)
    requires
        is_first_index(s, c, i),
    ensures
        first_index(s, c) == i,
{
    let j = first_index(s, c);
    assert(is_first_index::<A>(s, c, j));
    if j < i {
        assert(s[j] != c);
    } else if i < j {
        assert(s[i] != c);
    }
}

pub proof fn lemma_no_first_index<A>(s: Seq<A>, c: A)
    requires
        forall|k: int| 0 <= k < s.len() ==> s[k] != c,
    ensures
        first_index(s, c) == -1,
{
}

pub proof fn lemma_last_index<A>(s: Seq<A>, c: A, i: int)
    requires
        is_last_index(s, c, i),
    ensures
        last_index(s, c) == i,
{
    let j = last_index(s, c);
    assert(is_last_index::<A>(s, c, j));
    if j < i {
        assert(s[i] != c);
    } else if i < j {
        assert(s[j] != c);
    }
}

pub proof fn lemma_no_last_index<A>(s: Seq<A>, c: A)
    requires
        forall|k: int| 0 <= k < s.len() ==> s[k] != c,
    ensures
        last_index(s, c) == -1,
{
}

/// The pieces of `s` between occurrences of `sep`, as `str::split` gives them.
pub open spec fn split_on(s: Seq<char>, sep: char) -> Seq<Seq<char>>
    decreases s.len(),
{
    let i = first_index(s, sep);
    if 0 <= i < s.len() {
        seq![s.take(i)] + split_on(s.skip(i + 1), sep)
    } else {
        seq![s]
    }
}

/// The pieces joined with `sep` between neighbours.
pub open spec fn join_with(parts: Seq<Seq<char>>, sep: char) -> Seq<char>
    decreases parts.len(),
{
    if parts.len() == 0 {
        Seq::empty()
    } else if parts.len() == 1 {
        parts[0]
    } else {
        parts[0] + seq![sep] + join_with(parts.drop_first(), sep)
    }
}

/// A character that no piece holds, and that is not the separator, is not in the joined text.
pub proof fn lemma_join_excludes(parts: Seq<Seq<char>>, sep: char, c: char)
    requires
        c != sep,
        forall|k: int| 0 <= k < parts.len() ==> !(#[trigger] parts[k]).contains(c),
    ensures
        !join_with(parts, sep).contains(c),
    decreases parts.len(),
{
    if parts.len() >= 2 {
        let rest = parts.drop_first();
        assert forall|k: int| 0 <= k < rest.len() implies !(#[trigger] rest[k]).contains(c) by {
            assert(rest[k] == parts[k + 1]);
        }
        lemma_join_excludes(rest, sep, c);
        let j = join_with(parts, sep);
        let left = parts[0] + seq![sep];
        assert(!parts[0].contains(c));
        if j.contains(c) {
            let i = choose|i: int| 0 <= i < j.len() && j[i] == c;
            if i < parts[0].len() {
                assert(parts[0][i] == c);
            } else if i == parts[0].len() {
                assert(j[i] == sep);
            } else {
                assert(join_with(rest, sep)[i - left.len()] == c);
            }
        }
    } else if parts.len() == 1 {
        assert(!parts[0].contains(c));
    }
}

/// Splitting joined pieces that do not hold the separator gives the pieces back.
pub proof fn lemma_split_join(parts: Seq<Seq<char>>, sep: char)
    requires
        parts.len() >= 1,
        forall|k: int| 0 <= k < parts.len() ==> !(#[trigger] parts[k]).contains(sep),
    ensures
        split_on(join_with(parts, sep), sep) == parts,
    decreases parts.len(),
{
    let j = join_with(parts, sep);
    let p0 = parts[0];
    assert(!p0.contains(sep));
    if parts.len() == 1 {
        lemma_no_first_index(j, sep);
        assert(split_on(j, sep) =~= parts);
    } else {
        let rest = parts.drop_first();
        assert forall|k: int| 0 <= k < rest.len() implies !(#[trigger] rest[k]).contains(sep) by {
            assert(rest[k] == parts[k + 1]);
        }
        lemma_split_join(rest, sep);
        assert forall|k: int| 0 <= k < p0.len() implies j[k] != sep by {
            assert(j[k] == p0[k]);
        }
        assert(j[p0.len() as int] == sep);
        lemma_first_index(j, sep, p0.len() as int);
        assert(j.take(p0.len() as int) =~= p0);
        assert(j.skip(p0.len() as int + 1) =~= join_with(rest, sep));
        assert(split_on(j, sep) =~= parts);
    }
}

/// Text views of a sequence of strings.
pub open spec fn views(v: Seq<String>) -> Seq<Seq<char>> {
    v.map_values(|x: String| x@)
}

/// Position of the first `c` in `s`, scanning forward.
pub fn find_first(s: &str, c: char) -> (r: Option<usize>)
    ensures
        match r {
            Some(i) => is_first_index(s@, c, i as int) && first_index(s@, c) == i as int,
            None => !s@.contains(c) && first_index(s@, c) == -1,
        },
{
    let n = s.unicode_len();
    let mut i: usize = 0;
    while i < n
        invariant
            n == s@.len(),
            i <= n,
            forall|k: int| 0 <= k < i ==> s@[k] != c,
        decreases n - i,
    {
        if s.get_char(i) == c {
            proof {
                lemma_first_index(s@, c, i as int);
            }
            return Some(i);
        }
        i = i + 1;
    }
    proof {
        lemma_no_first_index(s@, c);
    }
    None
}

/// Position of the last `c` in `s`, scanning backward.
pub fn find_last(s: &str, c: char) -> (r: Option<usize>)
    ensures
        match r {
            Some(i) => is_last_index(s@, c, i as int) && last_index(s@, c) == i as int,
            None => !s@.contains(c) && last_index(s@, c) == -1,
        },
{
    let n = s.unicode_len();
    let mut i: usize = n;
    while i > 0
        invariant
            n == s@.len(),
            i <= n,
            forall|k: int| i <= k < n ==> s@[k] != c,
        decreases i,
    {
        if s.get_char(i - 1) == c {
            proof {
                lemma_last_index(s@, c, i - 1);
            }
            return Some(i - 1);
        }
        i = i - 1;
    }
    proof {
        lemma_no_last_index(s@, c);
    }
    None
}

/// Whether `c` occurs in `s`.
pub fn contains_char(s: &str, c: char) -> (r: bool)
    ensures
        r == s@.contains(c),
{
    find_first(s, c).is_some()
}

/// Whether two texts hold the same characters.
pub fn same_text(a: &str, b: &str) -> (r: bool)
    ensures
        r == (a@ == b@),
{
    let n = a.unicode_len();
    if n != b.unicode_len() {
        return false;
    }
    let mut i: usize = 0;
    while i < n
        invariant
            n == a@.len(),
            n == b@.len(),
            i <= n,
            forall|k: int| 0 <= k < i ==> a@[k] == b@[k],
        decreases n - i,
    {
        if a.get_char(i) != b.get_char(i) {
            return false;
        }
        i = i + 1;
    }
    assert(a@ =~= b@);
    true
}

/// Splits `s` at every `sep`, like `str::split`.
pub fn split_text(s: &str, sep: char) -> (r: Vec<String>)
    ensures
        views(r@) == split_on(s@, sep),
{
    let n = s.unicode_len();
    let mut out: Vec<String> = Vec::new();
    let mut start: usize = 0;
    let mut i: usize = 0;
    proof {
        assert(s@.skip(0) =~= s@);
        assert(views(out@) + split_on(s@, sep) =~= split_on(s@, sep));
    }
    while i < n
        invariant
            n == s@.len(),
            start <= i <= n,
            forall|k: int| start <= k < i ==> s@[k] != sep,
            views(out@) + split_on(s@.skip(start as int), sep) == split_on(s@, sep),
        decreases n - i,
    {
        if s.get_char(i) == sep {
            let piece = String::from_str(s.substring_char(start, i));
            proof {
                let rest = s@.skip(start as int);
                lemma_first_index(rest, sep, i - start);
                assert(rest.take(i - start) =~= s@.subrange(start as int, i as int));
                assert(rest.skip(i - start + 1) =~= s@.skip(i + 1));
                assert(views(out@.push(piece)) =~= views(out@).push(piece@));
                assert(seq![rest.take(i - start)] + split_on(rest.skip(i - start + 1), sep)
                    == split_on(rest, sep));
                assert(views(out@.push(piece)) + split_on(s@.skip(i + 1), sep) =~= views(out@)
                    + split_on(rest, sep));
            }
            out.push(piece);
            start = i + 1;
        }
        i = i + 1;
    }
    let last = String::from_str(s.substring_char(start, n));
    proof {
        let rest = s@.skip(start as int);
        lemma_no_first_index(rest, sep);
        assert(rest =~= s@.subrange(start as int, n as int));
        assert(views(out@.push(last)) =~= views(out@) + split_on(rest, sep));
    }
    out.push(last);
    out
}

/// The decimal digit character for `d`.
pub open spec fn digit_char(d: int) -> char {
    (d + 48) as char
}

/// Decimal digits of `n`, most significant first, with no leading zero.
pub open spec fn decimal(n: nat) -> Seq<char>
    decreases n,
{
    if n < 10 {
        seq![digit_char(n as int)]
    } else {
        decimal(n / 10).push(digit_char((n % 10) as int))
    }
}

/// Decimal text of an integer, with a leading `-` when it is negative.
pub open spec fn signed_decimal(v: int) -> Seq<char> {
    if v < 0 {
        seq!['-'] + decimal((-v) as nat)
    } else {
        decimal(v as nat)
    }
}

/// Decimal text of `n` padded with leading zeros to at least two digits.
pub open spec fn two_digit(n: nat) -> Seq<char> {
    if n < 10 {
        seq!['0', digit_char(n as int)]
    } else {
        decimal(n)
    }
}

fn digit(d: u64) -> (c: char)
    requires
        d < 10,
    ensures
        c == digit_char(d as int),
{
    let b: u8 = (d as u8) + 48;
    b as char
}

/// Appends the decimal digits of `n` to `out`.
pub fn push_decimal(out: &mut String, n: u64)
    ensures
        final(out)@ == old(out)@ + decimal(n as nat),
    decreases n,
{
    if n < 10 {
        push_char(out, digit(n));
        assert(old(out)@.push(digit_char(n as int)) =~= old(out)@ + decimal(n as nat));
    } else {
        push_decimal(out, n / 10);
        push_char(out, digit(n % 10));
        assert(old(out)@ + decimal((n / 10) as nat) + seq![digit_char((n % 10) as int)]
            =~= old(out)@ + decimal(n as nat));
    }
}

/// Appends the decimal text of `v`, with a leading `-` when it is negative.
pub fn push_signed_decimal(out: &mut String, v: i64)
    ensures
        final(out)@ == old(out)@ + signed_decimal(v as int),
{
    if v < 0 {
        push_char(out, '-');
        let m: u64 = if v == i64::MIN {
            9223372036854775808u64
        } else {
            (-v) as u64
        };
        push_decimal(out, m);
        assert(old(out)@.push('-') + decimal(m as nat) =~= old(out)@ + signed_decimal(v as int));
    } else {
        push_decimal(out, v as u64);
    }
}

/// Appends `n` as at least two decimal digits, zero-padded.
pub fn push_two_digit(out: &mut String, n: u32)
    ensures
        final(out)@ == old(out)@ + two_digit(n as nat),
{
    if n < 10 {
        push_char(out, '0');
        push_char(out, digit(n as u64));
        assert(old(out)@.push('0').push(digit_char(n as int)) =~= old(out)@ + two_digit(n as nat));
    } else {
        push_decimal(out, n as u64);
    }
}

/// Joins two path pieces with one `/`, unless the first is empty or already ends in `/`.
pub open spec fn join_path(base: Seq<char>, piece: Seq<char>) -> Seq<char> {
    if base.len() == 0 || base.last() == '/' {
        base + piece
    } else {
        base + seq!['/'] + piece
    }
}

/// Appends `piece` to the path `out`, with one `/` between them where needed.
pub fn push_path(out: &mut String, piece: &str)
    ensures
        final(out)@ == join_path(old(out)@, piece@),
{
    let n = out.as_str().unicode_len();
    if n > 0 && out.as_str().get_char(n - 1) != '/' {
        push_char(out, '/');
    }
    out.append(piece);
}

/// Whether no two of the strings hold the same text.
pub fn all_distinct(v: &Vec<String>) -> (r: bool)
    ensures
        r == views(v@).no_duplicates(),
{
    let ghost s = views(v@);
    let mut i: usize = 0;
    while i < v.len()
        invariant
            s == views(v@),
            i <= v@.len(),
            forall|a: int, b: int| 0 <= a < i && 0 <= b < s.len() && a != b ==> s[a] != s[b],
        decreases v@.len() - i,
    {
        let mut j: usize = 0;
        while j < v.len()
            invariant
                s == views(v@),
                i < v@.len(),
                j <= v@.len(),
                forall|a: int, b: int| 0 <= a < i && 0 <= b < s.len() && a != b ==> s[a] != s[b],
                forall|b: int| 0 <= b < j && b != i ==> s[i as int] != s[b],
            decreases v@.len() - j,
        {
            if j != i && same_text(v[i].as_str(), v[j].as_str()) {
                assert(s[i as int] == s[j as int]);
                return false;
            }
            j = j + 1;
        }
        i = i + 1;
    }
    true
}

} // verus!
