//! Creates a Random Graph using Uniform Distribution for edge selections

use std::collections::HashMap;
use vstd::prelude::*;

use crate::graph::edge::Edge;
use crate::graph::{with_edge, without_edge, Graphed};
use crate::utils::random::{choose_below, random_below};

verus! {

/// The number of ordered pairs of different nodes.
pub open spec fn pair_count(nodes: u32) -> nat {
    if nodes == 0 {
        0
    } else {
        (nodes * (nodes - 1)) as nat
    }
}

/// The ordered pair of different nodes with the index, where the pairs
/// are counted by their first node and then by their second.
pub open spec fn pair_at(nodes: u32, index: nat) -> (u32, u32) {
    let first = index / ((nodes - 1) as nat);
    let rest = index % ((nodes - 1) as nat);
    (
        first as u32,
        if rest < first {
            rest as u32
        } else {
            (rest + 1) as u32
        },
    )
}

/// The pairs with an index are pairs of different nodes.
pub proof fn lemma_pair_at(nodes: u32, index: nat)
    requires
        index < pair_count(nodes),
    ensures
        index / ((nodes - 1) as nat) < nodes,
        index % ((nodes - 1) as nat) < nodes - 1,
        pair_at(nodes, index).0 < nodes,
        pair_at(nodes, index).1 < nodes,
        pair_at(nodes, index).0 != pair_at(nodes, index).1,
{
    let width = (nodes - 1) as nat;
    assert(nodes >= 2) by {
        if nodes == 1 {
            assert(nodes * (nodes - 1) == 0);
        }
    }
    vstd::arithmetic::div_mod::lemma_fundamental_div_mod(index as int, width as int);
    vstd::arithmetic::div_mod::lemma_mod_bound(index as int, width as int);
    vstd::arithmetic::div_mod::lemma_div_pos_is_pos(index as int, width as int);
    let first = index / width;
    if first >= nodes {
        assert(width * first >= width * nodes) by (nonlinear_arith)
            requires
                first >= nodes,
                width >= 0,
        ;
        assert(width * nodes == nodes * (nodes - 1)) by (nonlinear_arith)
            requires
                width == nodes - 1,
        ;
    }
}

/// Pairs with different indices are different.
pub proof fn lemma_pair_at_injective(nodes: u32, one: nat, other: nat)
    requires
        one < pair_count(nodes),
        other < pair_count(nodes),
        pair_at(nodes, one) == pair_at(nodes, other),
    ensures
        one == other,
{
    let width = (nodes - 1) as nat;
    lemma_pair_at(nodes, one);
    lemma_pair_at(nodes, other);
    vstd::arithmetic::div_mod::lemma_fundamental_div_mod(one as int, width as int);
    vstd::arithmetic::div_mod::lemma_fundamental_div_mod(other as int, width as int);
}

/// What a token of the stream holds: the two nodes of its edge, and
/// whether the edge is put in or taken out.
pub open spec fn shapes(stream: Seq<(Edge<u32, ()>, bool)>) -> Seq<(u32, u32, bool)> {
    Seq::new(stream.len(), |i: int| (stream[i].0.first(), stream[i].0.second(), stream[i].1))
}

/// What a stream holds after one more token.
proof fn lemma_shapes_push(stream: Seq<(Edge<u32, ()>, bool)>, token: (Edge<u32, ()>, bool))
    ensures
        shapes(stream.push(token)) == shapes(stream).push(
            (token.0.first(), token.0.second(), token.1),
        ),
{
    assert(shapes(stream.push(token)) =~= shapes(stream).push(
        (token.0.first(), token.0.second(), token.1),
    ));
}

/// The pair put in `count` times.
pub open spec fn run(pair: (u32, u32), count: nat) -> Seq<(u32, u32, bool)> {
    Seq::new(count, |i: int| (pair.0, pair.1, true))
}

/// One run after the other: the pair of each pick, as often as the number
/// beside the pick says.
pub open spec fn runs(nodes: u32, picks: Seq<u64>, copies: Seq<u32>) -> Seq<(u32, u32, bool)>
    decreases picks.len(),
{
    if picks.len() == 0 || copies.len() != picks.len() {
        Seq::<(u32, u32, bool)>::empty()
    } else {
        runs(nodes, picks.drop_last(), copies.drop_last()) + run(
            pair_at(nodes, picks.last() as nat),
            copies.last() as nat,
        )
    }
}

/// Each pair put in and taken out again.
pub open spec fn doubled(noise: Seq<(u32, u32)>) -> Seq<(u32, u32, bool)>
    decreases noise.len(),
{
    if noise.len() == 0 {
        Seq::<(u32, u32, bool)>::empty()
    } else {
        doubled(noise.drop_last()).push((noise.last().0, noise.last().1, true)).push(
            (noise.last().0, noise.last().1, false),
        )
    }
}

/// The runs are as long together as their numbers say: between the
/// least and the largest number for each pick.
pub proof fn lemma_runs_len(nodes: u32, picks: Seq<u64>, copies: Seq<u32>, least: nat, most: nat)
    requires
        picks.len() == copies.len(),
        forall|i: int| 0 <= i < copies.len() ==> least <= #[trigger] copies[i] <= most,
    ensures
        least * picks.len() <= runs(nodes, picks, copies).len() <= most * picks.len(),
    decreases picks.len(),
{
    if picks.len() > 0 {
        lemma_runs_len(nodes, picks.drop_last(), copies.drop_last(), least, most);
        let shorter = picks.len() - 1;
        assert(least <= copies[shorter] <= most);
        assert(copies.last() == copies[shorter]);
        assert(least * picks.len() == least * shorter + least) by (nonlinear_arith)
            requires
                shorter == picks.len() - 1,
        ;
        assert(most * picks.len() == most * shorter + most) by (nonlinear_arith)
            requires
                shorter == picks.len() - 1,
        ;
    } else {
        assert(least * picks.len() == 0 && most * picks.len() == 0) by (nonlinear_arith)
            requires
                picks.len() == 0,
        ;
    }
}

/// The graph that a stream leaves: each token puts its edge in or takes it
/// out.
pub open spec fn applied(stream: Seq<(Edge<u32, ()>, bool)>) -> Map<u32, Set<u32>>
    decreases stream.len(),
{
    if stream.len() == 0 {
        Map::<u32, Set<u32>>::empty()
    } else {
        let earlier = applied(stream.drop_last());
        let edge = stream.last().0;
        if stream.last().1 {
            with_edge(earlier, edge.first(), edge.second(), edge.is_directed())
        } else {
            without_edge(earlier, edge.first(), edge.second())
        }
    }
}

/// The graph that a stream leaves.
pub fn build<G: Graphed>(stream: &Vec<(Edge<u32, ()>, bool)>) -> (graph: G)
    ensures
        graph.wf(),
        graph.adjacency() == applied(stream@),
{
    broadcast use vstd::std_specs::hash::group_hash_axioms;

    let mut graph = G::new(HashMap::new());
    assert(graph.adjacency() =~= Map::<u32, Set<u32>>::empty());
    let mut at: usize = 0;
    assert(stream@.take(0) =~= Seq::<(Edge<u32, ()>, bool)>::empty());
    while at < stream.len()
        invariant
            at <= stream.len(),
            graph.wf(),
            graph.adjacency() == applied(stream@.take(at as int)),
        decreases stream.len() - at,
    {
        let token = stream[at];
        proof {
            let now = stream@.take(at + 1);
            assert(now.drop_last() =~= stream@.take(at as int));
            assert(now.last() == stream@[at as int]);
        }
        if token.1 {
            graph.add_edge(token.0);
        } else {
            graph.remove_edge(token.0);
        }
        at = at + 1;
    }
    assert(stream@.take(at as int) =~= stream@);
    graph
}

/// A distribution over the streams that build a graph with a given number
/// of nodes and edges.
#[derive(Debug, Clone, Copy)]
pub struct UniformGraphDistribution {
    /// The number of nodes in our graph
    pub nodes: u32,
    /// The number of edges we want to be in our graph
    pub edges: u32,
    /// The noise (useful for edge streams in the turnstile setting)
    ///
    /// Default = `0`
    pub noise: u32,
    /// The allowed copies of a single edge to be injected into the stream
    ///
    /// Default = `1`
    pub copies: u32,
}

impl UniformGraphDistribution {
    /// Generate a new UniformGraphDistribution over a size of nodes and edges
    ///
    ///
    /// When sampling with this, we will get a stream of size ((copies * edges) + 2*noise).
    /// What remains in the stream will be a set of edges sampled with uniform probability.
    /// The noise is simply to make the graph interesting with turnstile streams.
    pub fn init(nodes: u32, edges: u32) -> (d: Self)
        ensures
            d == (Self { nodes, edges, noise: 0, copies: 1 }),
    {
        Self { nodes, edges, noise: 0, copies: 1 }
    }

    /// Add noise to our distribution
    pub fn with_noise(self, noise: u32) -> (d: Self)
        ensures
            d == (Self { noise, ..self }),
    {
        Self { nodes: self.nodes, edges: self.edges, copies: self.copies, noise }
    }

    /// Add copies to our distribution
    pub fn with_copies(self, copies: u32) -> (d: Self)
        ensures
            d == (Self { copies, ..self }),
    {
        Self { nodes: self.nodes, edges: self.edges, noise: self.noise, copies }
    }

    /// The number of ordered pairs of different nodes.
    pub fn pairs(&self) -> (count: u64)
        ensures
            count == pair_count(self.nodes),
    {
        if self.nodes == 0 {
            0
        } else {
            let nodes: u64 = self.nodes as u64;
            assert(nodes * (nodes - 1) <= 0xFFFF_FFFF * 0xFFFF_FFFF) by (nonlinear_arith)
                requires
                    1 <= nodes <= 0xFFFF_FFFF,
            ;
            nodes * (nodes - 1)
        }
    }

    /// The ordered pair of different nodes with the index.
    pub fn pair(&self, index: u64) -> (pair: (u32, u32))
        requires
            index < pair_count(self.nodes),
        ensures
            pair == pair_at(self.nodes, index as nat),
            pair.0 < self.nodes,
            pair.1 < self.nodes,
            pair.0 != pair.1,
    {
        proof {
            lemma_pair_at(self.nodes, index as nat);
        }
        let width: u64 = (self.nodes - 1) as u64;
        let first: u64 = index / width;
        let rest: u64 = index % width;
        if rest < first {
            (first as u32, rest as u32)
        } else {
            (first as u32, (rest + 1) as u32)
        }
    }

    /// The stream of the picks: for each pick its pair is put in as often
    /// as the number beside it says, and after these runs each pair of
    /// the noise is put in and taken out again.
    pub fn stream(&self, picks: &Vec<u64>, copies: &Vec<u32>, noise: &Vec<(u32, u32)>) -> (stream:
        Vec<(Edge<u32, ()>, bool)>)
        requires
            picks@.len() == copies@.len(),
            forall|i: int| 0 <= i < picks@.len() ==> #[trigger] picks@[i] < pair_count(self.nodes),
        ensures
            shapes(stream@) == runs(self.nodes, picks@, copies@) + doubled(noise@),
            forall|i: int| 0 <= i < stream@.len() ==> !(#[trigger] stream@[i]).0.is_directed(),
    {
        let mut stream: Vec<(Edge<u32, ()>, bool)> = Vec::new();
        let mut at: usize = 0;
        assert(picks@.take(0) =~= Seq::<u64>::empty());
        assert(shapes(stream@) =~= runs(self.nodes, picks@.take(0), copies@.take(0)));
        while at < picks.len()
            invariant
                at <= picks.len(),
                picks@.len() == copies@.len(),
                forall|i: int|
                    0 <= i < picks@.len() ==> #[trigger] picks@[i] < pair_count(self.nodes),
                shapes(stream@) == runs(self.nodes, picks@.take(at as int), copies@.take(at as int)),
                forall|i: int| 0 <= i < stream@.len() ==> !(#[trigger] stream@[i]).0.is_directed(),
            decreases picks.len() - at,
        {
            let pair = self.pair(picks[at]);
            let ghost before = shapes(stream@);
            let mut copy: u32 = 0;
            while copy < copies[at]
                invariant
                    at < picks.len(),
                    picks@.len() == copies@.len(),
                    copy <= copies@[at as int],
                    shapes(stream@) == before + run(pair, copy as nat),
                    forall|i: int|
                        0 <= i < stream@.len() ==> !(#[trigger] stream@[i]).0.is_directed(),
                decreases copies@[at as int] - copy,
            {
                let ghost earlier = stream@;
                let token: (Edge<u32, ()>, bool) = (Edge::init(pair.0, pair.1), true);
                stream.push(token);
                proof {
                    lemma_shapes_push(earlier, token);
                    assert(run(pair, (copy + 1) as nat) =~= run(pair, copy as nat).push(
                        (pair.0, pair.1, true),
                    ));
                    assert(shapes(stream@) =~= before + run(pair, (copy + 1) as nat));
                }
                copy = copy + 1;
            }
            proof {
                let now_picks = picks@.take(at + 1);
                let now_copies = copies@.take(at + 1);
                assert(now_picks.drop_last() =~= picks@.take(at as int));
                assert(now_copies.drop_last() =~= copies@.take(at as int));
                assert(now_picks.last() == picks@[at as int]);
                assert(now_copies.last() == copies@[at as int]);
            }
            at = at + 1;
        }
        assert(picks@.take(at as int) =~= picks@);
        assert(copies@.take(at as int) =~= copies@);
        let ghost kept = shapes(stream@);
        let mut at: usize = 0;
        assert(noise@.take(0) =~= Seq::<(u32, u32)>::empty());
        assert(shapes(stream@) =~= kept + doubled(noise@.take(0)));
        while at < noise.len()
            invariant
                at <= noise.len(),
                shapes(stream@) == kept + doubled(noise@.take(at as int)),
                forall|i: int| 0 <= i < stream@.len() ==> !(#[trigger] stream@[i]).0.is_directed(),
            decreases noise.len() - at,
        {
            let pair = noise[at];
            let edge: Edge<u32, ()> = Edge::init(pair.0, pair.1);
            let ghost earlier = stream@;
            stream.push((edge, true));
            stream.push((edge, false));
            proof {
                let now = noise@.take(at + 1);
                assert(now.drop_last() =~= noise@.take(at as int));
                assert(now.last() == noise@[at as int]);
                lemma_shapes_push(earlier, (edge, true));
                lemma_shapes_push(earlier.push((edge, true)), (edge, false));
                assert(shapes(stream@) =~= kept + doubled(now));
            }
            at = at + 1;
        }
        assert(noise@.take(at as int) =~= noise@);
        stream
    }

    /// Whether the picks, the numbers beside them and the noise are such
    /// as a sample draws: as many different pairs as the graph is to have
    /// edges, or all pairs where there are fewer; for each a number of
    /// copies from one to the copies allowed; and as many pairs of noise as
    /// asked for, each from a node to the same or a larger one.
    pub open spec fn draws(&self, picks: Seq<u64>, copies: Seq<u32>, noise: Seq<(u32, u32)>) -> bool {
        &&& picks.no_duplicates()
        &&& picks.len() == if self.edges <= pair_count(self.nodes) {
            self.edges as nat
        } else {
            pair_count(self.nodes)
        }
        &&& forall|i: int| 0 <= i < picks.len() ==> #[trigger] picks[i] < pair_count(self.nodes)
        &&& copies.len() == picks.len()
        &&& forall|i: int| 0 <= i < copies.len() ==> 1 <= #[trigger] copies[i] <= self.copies
        &&& noise.len() == self.noise
        &&& forall|i: int|
            0 <= i < noise.len() ==> (#[trigger] noise[i]).0 <= noise[i].1 < self.nodes
    }

    /// A stream drawn at random: runs of copies of different pairs, then
    /// the noise. See [`Self::stream`].
    pub fn sample(&self) -> (stream: Vec<(Edge<u32, ()>, bool)>)
        requires
            self.copies >= 1,
            self.noise > 0 ==> self.nodes >= 2,
        ensures
            exists|picks: Seq<u64>, copies: Seq<u32>, noise: Seq<(u32, u32)>| #[trigger]
                self.draws(picks, copies, noise) && shapes(stream@) == runs(
                    self.nodes,
                    picks,
                    copies,
                ) + doubled(noise),
            forall|i: int| 0 <= i < stream@.len() ==> !(#[trigger] stream@[i]).0.is_directed(),
    {
        let pairs = self.pairs();
        let amount: usize = if self.edges as u64 <= pairs {
            self.edges as usize
        } else {
            pairs as usize
        };
        let picks = choose_below(pairs, amount);
        let mut copies: Vec<u32> = Vec::new();
        let mut at: usize = 0;
        while at < picks.len()
            invariant
                self.copies >= 1,
                at <= picks.len(),
                copies@.len() == at,
                forall|i: int| 0 <= i < copies@.len() ==> 1 <= #[trigger] copies@[i] <= self.copies,
            decreases picks.len() - at,
        {
            let drawn: u64 = random_below(self.copies as u64);
            copies.push((drawn as u32) + 1);
            at = at + 1;
        }
        let mut noise: Vec<(u32, u32)> = Vec::new();
        let mut at: u32 = 0;
        while at < self.noise
            invariant
                self.noise > 0 ==> self.nodes >= 2,
                at <= self.noise,
                noise@.len() == at,
                forall|i: int|
                    0 <= i < noise@.len() ==> (#[trigger] noise@[i]).0 <= noise@[i].1 < self.nodes,
            decreases self.noise - at,
        {
            let first: u64 = random_below((self.nodes - 1) as u64);
            let further: u64 = random_below(self.nodes as u64 - first);
            noise.push((first as u32, (first + further) as u32));
            at = at + 1;
        }
        let stream = self.stream(&picks, &copies, &noise);
        assert(self.draws(picks@, copies@, noise@));
        stream
    }

    /// A graph drawn at random: the graph that a stream drawn at random
    /// leaves.
    pub fn sample_graph<G: Graphed>(&self) -> (graph: G)
        requires
            self.copies >= 1,
            self.noise > 0 ==> self.nodes >= 2,
        ensures
            graph.wf(),
            exists|
                picks: Seq<u64>,
                copies: Seq<u32>,
                noise: Seq<(u32, u32)>,
                stream: Seq<(Edge<u32, ()>, bool)>,
            |
                #![trigger self.draws(picks, copies, noise), applied(stream)]
                self.draws(picks, copies, noise) && shapes(stream) == runs(self.nodes, picks, copies)
                    + doubled(noise) && graph.adjacency() == applied(stream),
    {
        let stream = self.sample();
        let graph: G = build(&stream);
        proof {
            let (picks, copies, noise) = choose|
                picks: Seq<u64>,
                copies: Seq<u32>,
                noise: Seq<(u32, u32)>,
            | #[trigger]
                self.draws(picks, copies, noise) && shapes(stream@) == runs(
                    self.nodes,
                    picks,
                    copies,
                ) + doubled(noise);
            assert(self.draws(picks, copies, noise) && shapes(stream@) == runs(
                self.nodes,
                picks,
                copies,
            ) + doubled(noise) && graph.adjacency() == applied(stream@));
        }
        graph
    }
}

} // verus!
