//! Reading edges from comma-separated text records.
use crate::graph::{Edge, Vertex};
use vstd::prelude::*;
use vstd::string::StrSliceExecFns;

verus! {

/// What `str::trim` leaves of `s`.
pub uninterp spec fn trim_of(s: Seq<char>) -> Seq<char>;

/// Relies on `str::trim`: the text without its leading and trailing white
/// space, which depends on the characters alone.
#[verifier::external_body]
fn trim(s: &str) -> (r: &str)
    ensures
        r@ == trim_of(s@),
{
    s.trim()
}

/// Whether `c` is an ASCII decimal digit.
pub open spec fn is_digit(c: char) -> bool {
    '0' <= c && c <= '9'
}

/// The number written by the decimal digits `d`.
pub open spec fn digits_value(d: Seq<char>) -> int
    decreases d.len(),
{
    if d.len() == 0 {
        0
    } else {
        digits_value(d.drop_last()) * 10 + (d.last() as int - '0' as int)
    }
}

/// `t` without one leading `+`, if it has one.
pub open spec fn unsigned_part(t: Seq<char>) -> Seq<char> {
    if t.len() > 0 && t[0] == '+' {
        t.drop_first()
    } else {
        t
    }
}

/// The vertex that the digits `d` write: one or more decimal digits whose
/// value fits in a vertex.
pub open spec fn digits_vertex(d: Seq<char>) -> Option<Vertex> {
    if d.len() > 0 && (forall|i: int| 0 <= i < d.len() ==> is_digit(#[trigger] d[i]))
        && digits_value(d) <= usize::MAX {
        Some(digits_value(d) as Vertex)
    } else {
        None
    }
}

/// The vertex that `t` writes: an optional `+`, then one or more decimal
/// digits whose value fits in a vertex; anything else writes none.
pub open spec fn vertex_of(t: Seq<char>) -> Option<Vertex> {
    digits_vertex(unsigned_part(t))
}

/// The position of the first comma of `s` at or after `from`, or the length
/// of `s` where there is none.
pub open spec fn next_comma(s: Seq<char>, from: int) -> int
    decreases s.len() - from,
{
    if from >= s.len() {
        s.len() as int
    } else if s[from] == ',' {
        from
    } else {
        next_comma(s, from + 1)
    }
}

/// The edge that the record `s` gives: its first two comma-separated fields,
/// trimmed, must each write a vertex; further fields are ignored.
pub open spec fn edge_of_line(s: Seq<char>) -> Option<Edge> {
    let c1 = next_comma(s, 0);
    if c1 >= s.len() {
        None
    } else {
        let c2 = next_comma(s, c1 + 1);
        match (vertex_of(trim_of(s.subrange(0, c1))), vertex_of(trim_of(s.subrange(c1 + 1, c2)))) {
            (Some(u), Some(v)) => Some((u, v)),
            _ => None,
        }
    }
}

/// The edges of the records `ls` that give one, in order.
pub open spec fn edges_of_lines(ls: Seq<Seq<char>>) -> Seq<Edge>
    decreases ls.len(),
{
    if ls.len() == 0 {
        Seq::empty()
    } else {
        let rest = edges_of_lines(ls.drop_last());
        match edge_of_line(ls.last()) {
            Some(e) => rest.push(e),
            None => rest,
        }
    }
}

proof fn lemma_digits_prefix(d: Seq<char>, k: int)
    requires
        0 <= k <= d.len(),
        forall|i: int| 0 <= i < d.len() ==> is_digit(#[trigger] d[i]),
    ensures
        digits_value(d.subrange(0, k)) <= digits_value(d),
        digits_value(d) >= 0,
    decreases d.len(),
{
    if d.len() > 0 {
        let p = d.drop_last();
        assert forall|i: int| 0 <= i < p.len() implies is_digit(#[trigger] p[i]) by {
            assert(p[i] == d[i]);
        }
        if k < d.len() {
            lemma_digits_prefix(p, k);
            assert(p.subrange(0, k) == d.subrange(0, k));
        } else {
            lemma_digits_prefix(p, 0);
            assert(d.subrange(0, k) == d);
        }
    }
}

/// The vertex that the text `s` writes, if any: an optional `+` and decimal
/// digits whose value fits in a vertex.
pub fn parse_vertex(s: &str) -> (r: Option<Vertex>)
    ensures
        r == vertex_of(s@),
{
    let n = s.unicode_len();
    let start: usize = if n > 0 && s.get_char(0) == '+' {
        1
    } else {
        0
    };
    let ghost d = s@.subrange(start as int, n as int);
    proof {
        if start == 1 {
            assert(d == s@.drop_first());
        } else {
            assert(d == s@);
        }
    }
    if start >= n {
        return None;
    }
    let mut value: u128 = 0;
    let mut i: usize = start;
    while i < n
        invariant
            start <= i <= n,
            n == s@.len(),
            d == s@.subrange(start as int, n as int),
            d == unsigned_part(s@),
            forall|j: int| 0 <= j < i - start ==> is_digit(#[trigger] d[j]),
            value == digits_value(d.subrange(0, i - start)),
            value <= usize::MAX,
        decreases n - i,
    {
        let c = s.get_char(i);
        if !('0' <= c && c <= '9') {
            proof {
                assert(d[i - start] == c);
                assert(!is_digit(d[i - start]));
            }
            return None;
        }
        let ghost pre = d.subrange(0, i - start);
        let ghost post = d.subrange(0, i + 1 - start);
        proof {
            assert(d[i - start] == c);
            assert(post.drop_last() == pre);
            assert(post.last() == c);
        }
        value = value * 10 + (c as u128 - '0' as u128);
        if value > usize::MAX as u128 {
            proof {
                if forall|j: int| 0 <= j < d.len() ==> is_digit(#[trigger] d[j]) {
                    lemma_digits_prefix(d, i + 1 - start);
                }
            }
            return None;
        }
        i = i + 1;
    }
    proof {
        assert(d.subrange(0, n - start) == d);
    }
    Some(value as usize)
}

/// The position of the first comma of `s` at or after `from`, or its length.
fn find_comma(s: &str, from: usize) -> (r: usize)
    requires
        from <= s@.len(),
    ensures
        r == next_comma(s@, from as int),
{
    let n = s.unicode_len();
    let mut i: usize = from;
    while i < n
        invariant
            from <= i <= n,
            n == s@.len(),
            next_comma(s@, from as int) == next_comma(s@, i as int),
        decreases n - i,
    {
        if s.get_char(i) == ',' {
            return i;
        }
        i = i + 1;
    }
    i
}

/// The edge that one text record gives, if any: the first two
/// comma-separated fields, with surrounding white space removed, must each
/// be a vertex. Records that give none are to be skipped.
pub fn parse_edge_line(line: &str) -> (r: Option<Edge>)
    ensures
        r == edge_of_line(line@),
{
    let n = line.unicode_len();
    let c1 = find_comma(line, 0);
    if c1 >= n {
        return None;
    }
    let c2 = find_comma(line, c1 + 1);
    proof {
        lemma_next_comma_bound(line@, c1 + 1);
    }
    let first = parse_vertex(trim(line.substring_char(0, c1)));
    let second = parse_vertex(trim(line.substring_char(c1 + 1, c2)));
    match (first, second) {
        (Some(u), Some(v)) => Some((u, v)),
        _ => None,
    }
}

proof fn lemma_next_comma_bound(s: Seq<char>, from: int)
    requires
        0 <= from <= s.len(),
    ensures
        from <= next_comma(s, from) <= s.len(),
    decreases s.len() - from,
{
    if from < s.len() && s[from] != ',' {
        lemma_next_comma_bound(s, from + 1);
    }
}

/// The edges of the text records `lines`, in order; records that give no
/// edge are skipped.
pub fn read_edge_list(lines: &Vec<String>) -> (r: Vec<Edge>)
    ensures
        r@ == edges_of_lines(lines@.map_values(|l: String| l@)),
{
    let ghost ls = lines@.map_values(|l: String| l@);
    let mut edges: Vec<Edge> = Vec::new();
    let mut i: usize = 0;
    while i < lines.len()
        invariant
            i <= lines@.len(),
            ls == lines@.map_values(|l: String| l@),
            edges@ == edges_of_lines(ls.subrange(0, i as int)),
        decreases lines@.len() - i,
    {
        let parsed = parse_edge_line(lines[i].as_str());
        proof {
            let post = ls.subrange(0, i + 1);
            assert(post.drop_last() == ls.subrange(0, i as int));
            assert(post.last() == lines@[i as int]@);
        }
        match parsed {
            Some(e) => edges.push(e),
            None => {},
        }
        i = i + 1;
    }
    assert(ls.subrange(0, lines@.len() as int) == ls);
    edges
}

} // verus!
