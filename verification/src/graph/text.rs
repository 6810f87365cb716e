//! Graphs as text: a line for each vertex, with the vertex, a colon and its
//! neighbors, separated by commas.

use vstd::prelude::*;
use vstd::string::StringSliceAdditionalSpecFns;

use crate::graph::edge::Edge;
use crate::graph::{with_arc, Graph, GraphWithRecaller, Graphed};
use crate::utils::collections::set_items;

verus! {

/// What keeps a text from being a graph.
#[derive(Debug, Clone, Copy, PartialEq, Eq, Structural)]
pub enum GraphParseError {
    /// A line has a vertex and no colon after it.
    MissingColon,
    /// A vertex or a neighbor is not a number that fits a `u32`.
    InvalidNumber,
}

/// Whether the byte is white space: a blank, a tab, a line feed, a vertical
/// tab, a form feed or a carriage return.
pub open spec fn is_space(b: u8) -> bool {
    b == 32 || 9 <= b <= 13
}

/// The first place from `from` on and before `to` where the text holds
/// `sep`, or `to` where there is none.
pub open spec fn next_sep(text: Seq<u8>, sep: u8, from: int, to: int) -> int
    decreases to - from,
{
    if from >= to {
        to
    } else if text[from] == sep {
        from
    } else {
        next_sep(text, sep, from + 1, to)
    }
}

/// The first place from `lo` on and before `hi` that holds no white space,
/// or `hi`.
pub open spec fn trim_start(text: Seq<u8>, lo: int, hi: int) -> int
    decreases hi - lo,
{
    if lo < hi && is_space(text[lo]) {
        trim_start(text, lo + 1, hi)
    } else {
        lo
    }
}

/// The end of the text from `lo` to `hi` without the white space at its
/// end.
pub open spec fn trim_end(text: Seq<u8>, lo: int, hi: int) -> int
    decreases hi - lo,
{
    if lo < hi && is_space(text[hi - 1]) {
        trim_end(text, lo, hi - 1)
    } else {
        hi
    }
}

/// The number that the decimal digits from `lo` to `hi` stand for, or
/// `None` if one of them is no digit.
pub open spec fn digits_value(text: Seq<u8>, lo: int, hi: int) -> Option<nat>
    decreases hi - lo,
{
    if hi <= lo {
        Some(0)
    } else {
        match digits_value(text, lo, hi - 1) {
            Some(before) => if 48 <= text[hi - 1] <= 57 {
                Some((before * 10 + (text[hi - 1] - 48)) as nat)
            } else {
                None
            },
            None => None,
        }
    }
}

/// The number that the text from `lo` to `hi` stands for: decimal digits,
/// one at least, after a plus sign or none, with a value that fits a `u32`.
pub open spec fn number(text: Seq<u8>, lo: int, hi: int) -> Option<u32> {
    let start = if lo < hi && text[lo] == 43 {
        lo + 1
    } else {
        lo
    };
    if start >= hi {
        None
    } else {
        match digits_value(text, start, hi) {
            Some(value) => if value <= u32::MAX {
                Some(value as u32)
            } else {
                None
            },
            None => None,
        }
    }
}

/// The numbers of the list from `lo` to `hi`, which commas separate, or
/// `None` if one of them is no number.
pub open spec fn list(text: Seq<u8>, lo: int, hi: int) -> Option<Seq<u32>>
    decreases hi - lo + 1,
{
    let end = next_sep(text, 44, lo, hi);
    if lo > hi {
        None
    } else {
        proof {
            lemma_next_sep_bounds(text, 44, lo, hi);
        }
        match number(text, lo, end) {
            None => None,
            Some(first) => if end >= hi {
                Some(seq![first])
            } else {
                match list(text, end + 1, hi) {
                    None => None,
                    Some(rest) => Some(seq![first] + rest),
                }
            },
        }
    }
}

/// A separator is found at its place or after it.
pub proof fn lemma_next_sep_bounds(text: Seq<u8>, sep: u8, from: int, to: int)
    ensures
        from <= to ==> from <= next_sep(text, sep, from, to) <= to,
        from > to ==> next_sep(text, sep, from, to) == to,
    decreases to - from,
{
    if from < to && text[from] != sep {
        lemma_next_sep_bounds(text, sep, from + 1, to);
    }
}

/// The vertex of the line from `lo` to `hi` with its neighbors: the number
/// before the first colon, and the list between the first colon and the
/// second or the end of the line, each without the white space around it.
pub open spec fn line(text: Seq<u8>, lo: int, hi: int) -> Result<(u32, Seq<u32>), GraphParseError> {
    let first = next_sep(text, 58, lo, hi);
    let second = next_sep(text, 58, first + 1, hi);
    match number(text, trim_start(text, lo, first), trim_end(text, trim_start(text, lo, first), first)) {
        None => Err(GraphParseError::InvalidNumber),
        Some(vertex) => if first >= hi {
            Err(GraphParseError::MissingColon)
        } else {
            let from = trim_start(text, first + 1, second);
            match list(text, from, trim_end(text, from, second)) {
                None => Err(GraphParseError::InvalidNumber),
                Some(neighbors) => Ok((vertex, neighbors)),
            }
        },
    }
}

/// The graph with each of the neighbors among the neighbors of the
/// vertex.
pub open spec fn with_neighbors(adj: Map<u32, Set<u32>>, vertex: u32, neighbors: Seq<u32>) -> Map<
    u32,
    Set<u32>,
>
    decreases neighbors.len(),
{
    if neighbors.len() == 0 {
        adj
    } else {
        with_arc(with_neighbors(adj, vertex, neighbors.drop_last()), vertex, neighbors.last())
    }
}

/// The graph that the lines of the text from `from` on add to a graph, or
/// the first error in them. Line feeds end the lines.
pub open spec fn lines(text: Seq<u8>, from: int, adj: Map<u32, Set<u32>>) -> Result<
    Map<u32, Set<u32>>,
    GraphParseError,
>
    decreases text.len() + 1 - from,
{
    if from >= text.len() {
        Ok(adj)
    } else {
        let end = next_sep(text, 10, from, text.len() as int);
        match line(text, from, end) {
            Err(e) => Err(e),
            Ok(read) => {
                proof {
                    lemma_next_sep_bounds(text, 10, from, text.len() as int);
                }
                lines(text, end + 1, with_neighbors(adj, read.0, read.1))
            },
        }
    }
}

/// The graph that a text stands for, or the first error in the text.
pub open spec fn text_graph(text: Seq<u8>) -> Result<Map<u32, Set<u32>>, GraphParseError> {
    lines(text, 0, Map::empty())
}

fn find(text: &[u8], sep: u8, from: usize, to: usize) -> (at: usize)
    requires
        from <= to <= text@.len(),
    ensures
        at == next_sep(text@, sep, from as int, to as int),
        from <= at <= to,
{
    let mut at = from;
    while at < to && text[at] != sep
        invariant
            from <= at <= to <= text@.len(),
            next_sep(text@, sep, at as int, to as int) == next_sep(
                text@,
                sep,
                from as int,
                to as int,
            ),
        decreases to - at,
    {
        at = at + 1;
    }
    at
}

fn space(b: u8) -> (yes: bool)
    ensures
        yes == is_space(b),
{
    b == 32 || (9 <= b && b <= 13)
}

fn skip_start(text: &[u8], lo: usize, hi: usize) -> (at: usize)
    requires
        lo <= hi <= text@.len(),
    ensures
        at == trim_start(text@, lo as int, hi as int),
        lo <= at <= hi,
{
    let mut at = lo;
    while at < hi && space(text[at])
        invariant
            lo <= at <= hi <= text@.len(),
            trim_start(text@, at as int, hi as int) == trim_start(text@, lo as int, hi as int),
        decreases hi - at,
    {
        at = at + 1;
    }
    at
}

fn skip_end(text: &[u8], lo: usize, hi: usize) -> (at: usize)
    requires
        lo <= hi <= text@.len(),
    ensures
        at == trim_end(text@, lo as int, hi as int),
        lo <= at <= hi,
{
    let mut at = hi;
    while lo < at && space(text[at - 1])
        invariant
            lo <= at <= hi <= text@.len(),
            trim_end(text@, lo as int, at as int) == trim_end(text@, lo as int, hi as int),
        decreases at - lo,
    {
        at = at - 1;
    }
    at
}

/// More digits do not make a number smaller.
proof fn lemma_digits_grow(text: Seq<u8>, lo: int, mid: int, hi: int)
    requires
        lo <= mid <= hi,
    ensures
        digits_value(text, lo, mid) is None ==> digits_value(text, lo, hi) is None,
        digits_value(text, lo, hi) is Some ==> digits_value(text, lo, mid) is Some
            && digits_value(text, lo, mid)->Some_0 <= digits_value(text, lo, hi)->Some_0,
    decreases hi - mid,
{
    if mid < hi {
        lemma_digits_grow(text, lo, mid, hi - 1);
    }
}

fn read_number(text: &[u8], lo: usize, hi: usize) -> (n: Option<u32>)
    requires
        lo <= hi <= text@.len(),
    ensures
        n == number(text@, lo as int, hi as int),
{
    let start = if lo < hi && text[lo] == 43 {
        lo + 1
    } else {
        lo
    };
    if start >= hi {
        return None;
    }
    let mut value: u64 = 0;
    let mut at = start;
    while at < hi
        invariant
            start <= at <= hi <= text@.len(),
            start < hi,
            start == if lo < hi && text@[lo as int] == 43 {
                lo + 1
            } else {
                lo as int
            },
            value <= u32::MAX,
            digits_value(text@, start as int, at as int) == Some(value as nat),
        decreases hi - at,
    {
        let b = text[at];
        if b < 48 || b > 57 {
            proof {
                assert(digits_value(text@, start as int, at + 1) is None);
                lemma_digits_grow(text@, start as int, at + 1, hi as int);
            }
            return None;
        }
        value = value * 10 + (b - 48) as u64;
        proof {
            assert(digits_value(text@, start as int, at + 1) == Some(value as nat));
        }
        if value > u32::MAX as u64 {
            proof {
                lemma_digits_grow(text@, start as int, at + 1, hi as int);
            }
            return None;
        }
        at = at + 1;
    }
    Some(value as u32)
}

/// Adds the edges from `vertex` to the numbers of the list to the graph.
fn read_list<G: Graphed>(text: &[u8], lo: usize, hi: usize, vertex: u32, graph: &mut G) -> (ok:
    bool)
    requires
        lo <= hi <= text@.len(),
        old(graph).wf(),
    ensures
        final(graph).wf(),
        ok <==> list(text@, lo as int, hi as int) is Some,
        ok ==> final(graph).adjacency() == with_neighbors(
            old(graph).adjacency(),
            vertex,
            list(text@, lo as int, hi as int)->Some_0,
        ),
{
    let ghost start = graph.adjacency();
    let ghost mut done: Seq<u32> = Seq::empty();
    let mut from = lo;
    loop
        invariant
            lo <= from <= hi <= text@.len(),
            graph.wf(),
            start == old(graph).adjacency(),
            graph.adjacency() == with_neighbors(start, vertex, done),
            list(text@, lo as int, hi as int) == match list(text@, from as int, hi as int) {
                None => None::<Seq<u32>>,
                Some(rest) => Some(done + rest),
            },
        decreases hi - from,
    {
        let end = find(text, 44, from, hi);
        let ghost tail = list(text@, from as int, hi as int);
        let neighbor = match read_number(text, from, end) {
            Some(neighbor) => neighbor,
            None => {
                assert(tail is None);
                return false;
            },
        };
        graph.add_edge(Edge::init_directed(vertex, neighbor));
        proof {
            if end >= hi {
                assert(tail == Some(seq![neighbor]));
            } else {
                assert(tail == match list(text@, end + 1, hi as int) {
                    None => None::<Seq<u32>>,
                    Some(rest) => Some(seq![neighbor] + rest),
                });
            }
            assert(done.push(neighbor).drop_last() =~= done);
            if end >= hi {
                assert(done + seq![neighbor] =~= done.push(neighbor));
            } else {
                if list(text@, end + 1, hi as int) is Some {
                    let rest = list(text@, end + 1, hi as int)->Some_0;
                    assert(done + (seq![neighbor] + rest) =~= done.push(neighbor) + rest);
                }
            }
            done = done.push(neighbor);
        }
        if end >= hi {
            return true;
        }
        from = end + 1;
    }
}

/// Adds the edges of a line to the graph.
fn read_line<G: Graphed>(text: &[u8], lo: usize, hi: usize, graph: &mut G) -> (read: Result<
    (),
    GraphParseError,
>)
    requires
        lo <= hi <= text@.len(),
        old(graph).wf(),
    ensures
        final(graph).wf(),
        match line(text@, lo as int, hi as int) {
            Ok((vertex, neighbors)) => read is Ok && final(graph).adjacency() == with_neighbors(
                old(graph).adjacency(),
                vertex,
                neighbors,
            ),
            Err(e) => read == Err::<(), GraphParseError>(e),
        },
{
    let first = find(text, 58, lo, hi);
    let start = skip_start(text, lo, first);
    let vertex = match read_number(text, start, skip_end(text, start, first)) {
        Some(vertex) => vertex,
        None => {
            return Err(GraphParseError::InvalidNumber);
        },
    };
    if first >= hi {
        return Err(GraphParseError::MissingColon);
    }
    let second = find(text, 58, first + 1, hi);
    let from = skip_start(text, first + 1, second);
    if read_list(text, from, skip_end(text, from, second), vertex, graph) {
        Ok(())
    } else {
        Err(GraphParseError::InvalidNumber)
    }
}

/// The graph that the bytes of a text stand for, or the first error in the
/// text.
pub fn parse_graph<G: Graphed>(text: &[u8]) -> (graph: Result<G, GraphParseError>)
    ensures
        match graph {
            Ok(graph) => graph.wf() && text_graph(text@) == Ok::<
                Map<u32, Set<u32>>,
                GraphParseError,
            >(graph.adjacency()),
            Err(e) => text_graph(text@) == Err::<Map<u32, Set<u32>>, GraphParseError>(e),
        },
{
    let mut graph = G::new(std::collections::HashMap::new());
    assert(graph.adjacency() =~= Map::<u32, Set<u32>>::empty());
    let mut from: usize = 0;
    while from < text.len()
        invariant
            from <= text@.len(),
            graph.wf(),
            text_graph(text@) == lines(text@, from as int, graph.adjacency()),
        decreases text@.len() - from,
    {
        let end = find(text, 10, from, text.len());
        match read_line(text, from, end, &mut graph) {
            Ok(()) => {},
            Err(e) => {
                return Err(e);
            },
        }
        proof {
            assert(lines(text@, end + 1, graph.adjacency()) == text_graph(text@));
        }
        if end >= text.len() {
            from = text.len();
        } else {
            from = end + 1;
        }
    }
    Ok(graph)
}

/// The graph that a text stands for, or the first error in the text.
///
/// Each line holds a vertex, a colon and the neighbors of the vertex,
/// separated by commas. White space around the vertex and around the list of
/// neighbors does not count.
pub fn from_str<G: Graphed>(s: &str) -> (graph: Result<G, GraphParseError>)
    ensures
        match graph {
            Ok(graph) => graph.wf() && text_graph(s.spec_bytes()) == Ok::<
                Map<u32, Set<u32>>,
                GraphParseError,
            >(graph.adjacency()),
            Err(e) => text_graph(s.spec_bytes()) == Err::<Map<u32, Set<u32>>, GraphParseError>(e),
        },
{
    parse_graph(s.as_bytes())
}

impl std::str::FromStr for Graph {
    type Err = GraphParseError;

    /// The graph that the text holds, as [`from_str`] reads it.
    fn from_str(s: &str) -> (graph: Result<Self, Self::Err>)
        ensures
            match graph {
                Ok(graph) => graph.wf() && text_graph(s.spec_bytes()) == Ok::<
                    Map<u32, Set<u32>>,
                    GraphParseError,
                >(graph.adjacency()),
                Err(e) => text_graph(s.spec_bytes()) == Err::<Map<u32, Set<u32>>, GraphParseError>(e),
            },
    {
        self::from_str(s)
    }
}

impl std::str::FromStr for GraphWithRecaller {
    type Err = GraphParseError;

    /// The graph that the text holds, as [`from_str`] reads it.
    fn from_str(s: &str) -> (graph: Result<Self, Self::Err>)
        ensures
            match graph {
                Ok(graph) => graph.wf() && text_graph(s.spec_bytes()) == Ok::<
                    Map<u32, Set<u32>>,
                    GraphParseError,
                >(graph.adjacency()),
                Err(e) => text_graph(s.spec_bytes()) == Err::<Map<u32, Set<u32>>, GraphParseError>(e),
            },
    {
        self::from_str(s)
    }
}

/// The decimal digits of a number: the first is not a zero, unless it is
/// the only one.
pub open spec fn decimal(n: nat) -> Seq<u8>
    decreases n,
{
    if n < 10 {
        Seq::<u8>::empty().push((48 + n) as u8)
    } else {
        decimal(n / 10).push((48 + n % 10) as u8)
    }
}

/// Whether every byte of the text is a character of its own.
pub open spec fn plain(text: Seq<u8>) -> bool {
    forall|i: int| 0 <= i < text.len() ==> #[trigger] text[i] < 128
}

/// The decimal digits of a number.
pub fn decimal_digits(n: u32) -> (digits: Vec<u8>)
    ensures
        digits@ == decimal(n as nat),
        plain(digits@),
    decreases n,
{
    if n < 10 {
        let mut digits: Vec<u8> = Vec::new();
        digits.push((n as u8) + 48);
        digits
    } else {
        let mut digits = decimal_digits(n / 10);
        digits.push(((n % 10) as u8) + 48);
        digits
    }
}

/// Whether `a` comes no later than `b` in the order of a dictionary: at
/// the first place where they differ `a` has the smaller byte, or `a`
/// ends there.
pub open spec fn lexical(a: Seq<u8>, b: Seq<u8>) -> bool
    decreases a.len(),
{
    if a.len() == 0 {
        true
    } else if b.len() == 0 {
        false
    } else if a[0] != b[0] {
        a[0] < b[0]
    } else {
        lexical(a.drop_first(), b.drop_first())
    }
}

proof fn lemma_lexical_total(a: Seq<u8>, b: Seq<u8>)
    ensures
        lexical(a, b) || lexical(b, a),
    decreases a.len(),
{
    if a.len() > 0 && b.len() > 0 && a[0] == b[0] {
        lemma_lexical_total(a.drop_first(), b.drop_first());
    }
}

proof fn lemma_lexical_transitive(a: Seq<u8>, b: Seq<u8>, c: Seq<u8>)
    requires
        lexical(a, b),
        lexical(b, c),
    ensures
        lexical(a, c),
    decreases a.len(),
{
    if a.len() > 0 && a[0] == b[0] && b[0] == c[0] {
        lemma_lexical_transitive(a.drop_first(), b.drop_first(), c.drop_first());
    }
}

fn lexical_order(a: &Vec<u8>, b: &Vec<u8>) -> (yes: bool)
    ensures
        yes == lexical(a@, b@),
{
    let mut at: usize = 0;
    assert(a@.skip(0) =~= a@ && b@.skip(0) =~= b@);
    while at < a.len() && at < b.len()
        invariant
            at <= a.len(),
            at <= b.len(),
            lexical(a@, b@) == lexical(a@.skip(at as int), b@.skip(at as int)),
        decreases a.len() - at,
    {
        assert(a@.skip(at as int)[0] == a@[at as int]);
        assert(b@.skip(at as int)[0] == b@[at as int]);
        if a[at] != b[at] {
            return a[at] < b[at];
        }
        assert(a@.skip(at as int).drop_first() =~= a@.skip(at + 1));
        assert(b@.skip(at as int).drop_first() =~= b@.skip(at + 1));
        at = at + 1;
    }
    at >= a.len()
}

/// The order in which numbers are written: by their value, or by their
/// decimal digits as a dictionary orders them.
pub open spec fn before(by_text: bool, a: u32, b: u32) -> bool {
    if by_text {
        lexical(decimal(a as nat), decimal(b as nat))
    } else {
        a <= b
    }
}

/// Whether each of the numbers comes before those after it.
pub open spec fn ordered(by_text: bool, items: Seq<u32>) -> bool {
    forall|i: int, j: int|
        0 <= i < j < items.len() ==> before(by_text, #[trigger] items[i], #[trigger] items[j])
}

fn in_order(by_text: bool, a: u32, b: u32) -> (yes: bool)
    ensures
        yes == before(by_text, a, b),
{
    if by_text {
        lexical_order(&decimal_digits(a), &decimal_digits(b))
    } else {
        a <= b
    }
}

proof fn lemma_insert_keeps(by_text: bool, items: Seq<u32>, place: int, x: u32)
    requires
        ordered(by_text, items),
        items.no_duplicates(),
        !items.contains(x),
        0 <= place <= items.len(),
        forall|i: int| 0 <= i < place ==> before(by_text, #[trigger] items[i], x),
        place < items.len() ==> !before(by_text, items[place], x),
    ensures
        ordered(by_text, items.insert(place, x)),
        items.insert(place, x).no_duplicates(),
        items.insert(place, x).to_set() == items.to_set().insert(x),
{
    let longer = items.insert(place, x);
    assert forall|j: int| place <= j < items.len() implies before(by_text, x, #[trigger] items[j]) by {
        if by_text {
            lemma_lexical_total(decimal(items[place] as nat), decimal(x as nat));
            if place < j {
                assert(before(by_text, items[place], items[j]));
                lemma_lexical_transitive(
                    decimal(x as nat),
                    decimal(items[place] as nat),
                    decimal(items[j] as nat),
                );
            }
        } else {
            if place < j {
                assert(before(by_text, items[place], items[j]));
            }
        }
    }
    assert forall|i: int, j: int| 0 <= i < j < longer.len() implies before(
        by_text,
        #[trigger] longer[i],
        #[trigger] longer[j],
    ) && longer[i] != longer[j] by {
        if j < place {
            assert(longer[i] == items[i] && longer[j] == items[j]);
        } else if j == place {
            assert(longer[i] == items[i]);
        } else if i < place {
            assert(longer[i] == items[i] && longer[j] == items[j - 1]);
        } else if i == place {
            assert(longer[j] == items[j - 1]);
        } else {
            assert(longer[i] == items[i - 1] && longer[j] == items[j - 1]);
        }
    }
    assert forall|y: u32| longer.to_set().contains(y) <==> items.to_set().insert(x).contains(y) by {
        if longer.contains(y) {
            let i = choose|i: int| 0 <= i < longer.len() && longer[i] == y;
            if i < place {
                assert(items[i] == y);
            } else if i > place {
                assert(items[i - 1] == y);
            }
        }
        if items.contains(y) {
            let i = choose|i: int| 0 <= i < items.len() && items[i] == y;
            if i < place {
                assert(longer[i] == y);
            } else {
                assert(longer[i + 1] == y);
            }
        }
        if y == x {
            assert(longer[place] == y);
        }
    }
    assert(longer.to_set() =~= items.to_set().insert(x));
}

/// The numbers in order: by their value, or by their decimal digits as a
/// dictionary orders them.
pub fn sorted(items: &Vec<u32>, by_text: bool) -> (out: Vec<u32>)
    requires
        items@.no_duplicates(),
    ensures
        out@.no_duplicates(),
        out@.to_set() == items@.to_set(),
        out@.len() == items@.len(),
        ordered(by_text, out@),
{
    let mut out: Vec<u32> = Vec::new();
    let mut at: usize = 0;
    assert(out@.to_set() =~= items@.take(0).to_set());
    while at < items.len()
        invariant
            at <= items.len(),
            items@.no_duplicates(),
            out@.no_duplicates(),
            out@.len() == at,
            out@.to_set() == items@.take(at as int).to_set(),
            ordered(by_text, out@),
        decreases items.len() - at,
    {
        let x: u32 = items[at];
        let mut place: usize = 0;
        while place < out.len() && in_order(by_text, out[place], x)
            invariant
                place <= out.len(),
                forall|i: int| 0 <= i < place ==> before(by_text, #[trigger] out@[i], x),
            decreases out.len() - place,
        {
            place = place + 1;
        }
        proof {
            let earlier = items@.take(at as int);
            if out@.contains(x) {
                assert(out@.to_set().contains(x));
                assert(earlier.contains(x));
                let k = choose|k: int| 0 <= k < earlier.len() && earlier[k] == x;
                assert(items@[k] == items@[at as int]);
            }
            lemma_insert_keeps(by_text, out@, place as int, x);
            let later = items@.take(at + 1);
            assert(later =~= earlier.push(x));
            assert forall|y: u32| later.to_set().contains(y) <==> earlier.to_set().insert(
                x,
            ).contains(y) by {
                if later.contains(y) {
                    let i = choose|i: int| 0 <= i < later.len() && later[i] == y;
                    if i < at {
                        assert(earlier[i] == y);
                    }
                }
                if earlier.contains(y) {
                    let i = choose|i: int| 0 <= i < earlier.len() && earlier[i] == y;
                    assert(later[i] == y);
                }
                if y == x {
                    assert(later[at as int] == y);
                }
            }
            assert(later.to_set() =~= earlier.to_set().insert(x));
        }
        out.insert(place, x);
        at = at + 1;
    }
    assert(items@.take(at as int) =~= items@);
    out
}


/// The numbers in decimal digits, with a comma between one and the next.
pub open spec fn joined(numbers: Seq<u32>) -> Seq<u8>
    decreases numbers.len(),
{
    if numbers.len() == 0 {
        Seq::<u8>::empty()
    } else if numbers.len() == 1 {
        decimal(numbers[0] as nat)
    } else {
        joined(numbers.drop_last()).push(44) + decimal(numbers.last() as nat)
    }
}

/// The line of a vertex: the vertex, a colon, a space and its neighbors.
pub open spec fn entry(vertex: u32, neighbors: Seq<u32>) -> Seq<u8> {
    decimal(vertex as nat).push(58).push(32) + joined(neighbors)
}

/// The lines of the vertices, each with the neighbors beside it, with a
/// line feed between one line and the next.
pub open spec fn entries(keys: Seq<u32>, lists: Seq<Seq<u32>>) -> Seq<u8>
    decreases keys.len(),
{
    if keys.len() == 0 || lists.len() != keys.len() {
        Seq::<u8>::empty()
    } else if keys.len() == 1 {
        entry(keys[0], lists[0])
    } else {
        entries(keys.drop_last(), lists.drop_last()).push(10) + entry(keys.last(), lists.last())
    }
}

/// Whether the keys are the vertices of the graph by their value, and the
/// list beside each vertex its neighbors in the order of a dictionary.
pub open spec fn shows(adj: Map<u32, Set<u32>>, keys: Seq<u32>, lists: Seq<Seq<u32>>) -> bool {
    &&& keys.no_duplicates()
    &&& keys.to_set() == adj.dom()
    &&& ordered(false, keys)
    &&& lists.len() == keys.len()
    &&& forall|i: int|
        0 <= i < keys.len() ==> {
            &&& (#[trigger] lists[i]).no_duplicates()
            &&& lists[i].to_set() == adj[keys[i]]
            &&& ordered(true, lists[i])
        }
}

/// Whether the text is the graph written down: a line for each vertex, by
/// the value of the vertices, with its neighbors in the order of a
/// dictionary.
pub open spec fn printed(adj: Map<u32, Set<u32>>, text: Seq<u8>) -> bool {
    exists|keys: Seq<u32>, lists: Seq<Seq<u32>>| #[trigger]
        shows(adj, keys, lists) && text == entries(keys, lists)
}

/// The text whose characters are the bytes.
pub open spec fn as_text(bytes: Seq<u8>) -> Seq<char> {
    Seq::new(bytes.len(), |i: int| bytes[i] as char)
}

/// The line above a graph that is shown.
pub open spec fn header() -> Seq<u8> {
    seq![45u8, 45u8, 45u8, 32u8, 71u8, 114u8, 97u8, 112u8, 104u8, 32u8, 45u8, 45u8, 45u8, 10u8]
}

/// The line below a graph that is shown, with the line feed that ends
/// the graph's last line.
pub open spec fn footer() -> Seq<u8> {
    seq![10u8, 45u8, 45u8, 45u8, 10u8]
}

fn append(out: &mut Vec<u8>, more: &Vec<u8>)
    ensures
        final(out)@ == old(out)@ + more@,
{
    let mut at: usize = 0;
    assert(out@ =~= old(out)@ + more@.take(0));
    while at < more.len()
        invariant
            at <= more.len(),
            out@ == old(out)@ + more@.take(at as int),
        decreases more.len() - at,
    {
        out.push(more[at]);
        at = at + 1;
        assert(out@ =~= old(out)@ + more@.take(at as int));
    }
    assert(more@.take(at as int) =~= more@);
}

fn write_joined(out: &mut Vec<u8>, numbers: &Vec<u32>)
    ensures
        final(out)@ == old(out)@ + joined(numbers@),
        plain(old(out)@) ==> plain(final(out)@),
{
    let mut at: usize = 0;
    assert(out@ =~= old(out)@ + joined(numbers@.take(0)));
    while at < numbers.len()
        invariant
            at <= numbers.len(),
            out@ == old(out)@ + joined(numbers@.take(at as int)),
            plain(old(out)@) ==> plain(out@),
        decreases numbers.len() - at,
    {
        let ghost so_far = joined(numbers@.take(at as int));
        if at > 0 {
            out.push(44);
        }
        let digits = decimal_digits(numbers[at]);
        append(out, &digits);
        proof {
            let now = numbers@.take(at + 1);
            assert(now.drop_last() =~= numbers@.take(at as int));
            assert(now.last() == numbers@[at as int]);
            if at > 0 {
                assert(out@ =~= old(out)@ + (so_far.push(44) + digits@));
            } else {
                assert(so_far =~= Seq::<u8>::empty());
                assert(out@ =~= old(out)@ + digits@);
            }
        }
        at = at + 1;
    }
    assert(numbers@.take(at as int) =~= numbers@);
}

/// The graph written down: a line for each vertex, by the value of the
/// vertices. A line holds the vertex, a colon, a space and the neighbors
/// of the vertex with commas between them, in the order of a dictionary.
pub fn to_bytes<G: Graphed>(graph: &G) -> (text: Vec<u8>)
    requires
        graph.wf(),
    ensures
        printed(graph.adjacency(), text@),
        plain(text@),
{
    broadcast use vstd::std_specs::hash::group_hash_axioms;

    let ghost adj = graph.adjacency();
    let vertices = graph.vertices();
    let keys = sorted(&vertices, false);
    let mut out: Vec<u8> = Vec::new();
    let ghost mut lists: Seq<Seq<u32>> = Seq::empty();
    let mut at: usize = 0;
    assert(keys@.take(0) =~= Seq::<u32>::empty());
    while at < keys.len()
        invariant
            graph.wf(),
            adj == graph.adjacency(),
            at <= keys.len(),
            keys@.to_set() == adj.dom(),
            lists.len() == at,
            forall|i: int|
                0 <= i < at ==> {
                    &&& (#[trigger] lists[i]).no_duplicates()
                    &&& lists[i].to_set() == adj[keys@[i]]
                    &&& ordered(true, lists[i])
                },
            out@ == entries(keys@.take(at as int), lists),
            plain(out@),
        decreases keys.len() - at,
    {
        let vertex: u32 = keys[at];
        assert(keys@.to_set().contains(vertex));
        let neighbors = match graph.get_neighbors(&vertex) {
            Some(set) => {
                let items = set_items(set);
                sorted(&items, true)
            },
            None => Vec::new(),
        };
        let ghost so_far = out@;
        if at > 0 {
            out.push(10);
        }
        let digits = decimal_digits(vertex);
        append(&mut out, &digits);
        out.push(58);
        out.push(32);
        write_joined(&mut out, &neighbors);
        proof {
            let now_keys = keys@.take(at + 1);
            let now_lists = lists.push(neighbors@);
            assert(now_keys.drop_last() =~= keys@.take(at as int));
            assert(now_lists.drop_last() =~= lists);
            assert(now_keys.last() == vertex);
            assert(now_lists.last() == neighbors@);
            if at > 0 {
                assert(out@ =~= so_far.push(10) + entry(vertex, neighbors@));
            } else {
                assert(so_far =~= Seq::<u8>::empty());
                assert(out@ =~= entry(vertex, neighbors@));
                assert(now_keys[0] == vertex && now_lists[0] == neighbors@);
            }
            lists = now_lists;
        }
        at = at + 1;
    }
    proof {
        assert(keys@.take(at as int) =~= keys@);
        assert(shows(adj, keys@, lists));
    }
    out
}

/// The graph as it is shown: between a line above and a line below, the
/// graph written down.
pub fn shown_bytes<G: Graphed>(graph: &G) -> (text: Vec<u8>)
    requires
        graph.wf(),
    ensures
        exists|body: Seq<u8>| #[trigger]
            printed(graph.adjacency(), body) && text@ == header() + body + footer(),
        plain(text@),
{
    let mut out: Vec<u8> = Vec::new();
    out.push(45);
    out.push(45);
    out.push(45);
    out.push(32);
    out.push(71);
    out.push(114);
    out.push(97);
    out.push(112);
    out.push(104);
    out.push(32);
    out.push(45);
    out.push(45);
    out.push(45);
    out.push(10);
    assert(out@ =~= header());
    let body = to_bytes(graph);
    append(&mut out, &body);
    out.push(10);
    out.push(45);
    out.push(45);
    out.push(45);
    out.push(10);
    assert(out@ =~= header() + body@ + footer());
    out
}

/// The text that the bytes spell, where each byte is a character of its
/// own. This is `String::from_utf8`: it gives back the text that the bytes
/// encode, and such bytes encode the characters of their own values.
#[verifier::external_body]
fn text_of(bytes: Vec<u8>) -> (text: Option<String>)
    ensures
        text is Some || !plain(bytes@),
        text is Some && plain(bytes@) ==> text->Some_0@ == as_text(bytes@),
{
    match String::from_utf8(bytes) {
        Ok(text) => Some(text),
        Err(_) => None,
    }
}

/// The graph written down, as [`to_bytes`] writes it.
pub fn to_str<G: Graphed>(graph: &G) -> (text: String)
    requires
        graph.wf(),
    ensures
        exists|bytes: Seq<u8>| #[trigger]
            printed(graph.adjacency(), bytes) && text@ == as_text(bytes),
{
    let bytes = to_bytes(graph);
    match text_of(bytes) {
        Some(text) => text,
        None => unreached(),
    }
}

impl Graph {
    /// The graph as it is shown: between a line above and a line below,
    /// the graph written down.
    pub fn to_string(&self) -> (text: String)
        ensures
            exists|body: Seq<u8>| #[trigger]
                printed(self.adjacency(), body) && text@ == as_text(header() + body + footer()),
    {
        match text_of(shown_bytes(self)) {
            Some(text) => text,
            None => unreached(),
        }
    }
}

impl GraphWithRecaller {
    /// The graph as it is shown: between a line above and a line below,
    /// the graph written down.
    pub fn to_string(&self) -> (text: String)
        requires
            self.wf(),
        ensures
            exists|body: Seq<u8>| #[trigger]
                printed(self.adjacency(), body) && text@ == as_text(header() + body + footer()),
    {
        match text_of(shown_bytes(self)) {
            Some(text) => text,
            None => unreached(),
        }
    }
}


} // verus!
