//! The Markov chain container.
use rand::rngs::ThreadRng;
use std::collections::HashMap;
use vstd::hash_map::StringHashMap;
use vstd::prelude::*;

use super::chance::draw_below;
use super::select::{
    asked, chosen, decides, drawn, same, selected, sum_weights, weighted_select,
};
use super::selectors::interface::{MarkovSelector, SelectionType};

use super::model::{
    lemma_has_link, lemma_id_of, lemma_intern, lemma_intern_token, lemma_link_of, lemma_links_at,
    lemma_links_at_push, lemma_links_at_update, lemma_more_textlets_linked, lemma_parse_linked,
    lemma_register_valid, lemma_triples_chained, links_at, triples, ChainModel, Link,
};
use super::token::{MarkovToken, MarkovTokenOwned, Textlet};
use crate::sentence::laws::lemma_tokenize_alternates;
use crate::sentence::lex::{tokenize, Lexer, Token as LexedToken};
use crate::sentence::token::Lexeme;

verus! {

/// The textlet id of the beginning marker.
pub const BEGIN: usize = 0;

/// The textlet id of the end marker.
pub const END: usize = 1;

/// The direction in which to traverse the Markov chain.
#[derive(Clone, Copy, Eq, PartialEq, Structural, Debug)]
pub enum MarkovTraverseDir {
    Forward,
    Reverse,
}

/// Where a walk through the chain starts.
#[derive(Clone, Copy, Debug, Eq, PartialEq)]
pub enum MarkovSeed<'a> {
    /// At a word, which the chain must have seen.
    Word(&'a str),
    /// At the textlet of this id.
    Id(usize),
    /// At any textlet that some edge leaves, each with the same chance.
    Random,
}

/// Why a walk through the chain could not be made.
#[derive(Clone, Copy, Eq, PartialEq, Structural, Debug)]
pub enum MarkovError {
    /// The seed word is none that the chain has seen.
    SeedNotFound,
    /// No edge leaves the textlet of this id in the direction of the walk.
    DeadEnd(usize),
    /// The chain has no edge at all.
    EmptyChain,
}

/// Whether a walk from `seed` may start at the textlet `id`: at the id of
/// the seed word, at the seed id, or, for a random seed, at any textlet
/// that some edge leaves.
pub open spec fn starts_at(m: ChainModel, seed: MarkovSeed<'_>, id: nat) -> bool {
    match seed {
        MarkovSeed::Word(word) => m.id_of(word@) == Some(id),
        MarkovSeed::Id(i) => i == id,
        MarkovSeed::Random => m.has_link(MarkovTraverseDir::Forward, id),
    }
}

/// Whether some edge leads from `from`, in the direction `dir`, over the
/// punctuation `pct` to `to`.
pub open spec fn steps(m: ChainModel, dir: MarkovTraverseDir, from: nat, pct: nat, to: nat) -> bool {
    exists|e: int|
        0 <= e < m.links.len() && (#[trigger] m.links[e]).near(dir) == from && m.links[e].pct
            == pct && m.links[e].far(dir) == to
}

/// An edge linking two words in the Markov chain.
pub struct Edge {
    /// The word this edge comes from.
    pub src_idx: usize,
    /// The word this edge leads into.
    pub dst_idx: usize,
    /// How many times this edge has been found.
    pub hits: usize,
    /// The punctuation in this edge.
    pub pct_idx: usize,
}

impl View for Edge {
    type V = Link;

    open spec fn view(&self) -> Link {
        Link {
            src: self.src_idx as nat,
            dst: self.dst_idx as nat,
            pct: self.pct_idx as nat,
            hits: self.hits as nat,
        }
    }
}

impl Edge {
    /// Get the word from which this edge sprouts.
    pub fn get_source<'a>(&self, chain: &'a MarkovChain) -> (token: MarkovToken<'a>)
        requires
            self.src_idx < chain@.textlets.len(),
        ensures
            token@ == chain@.textlets[self.src_idx as int],
    {
        chain.get_textlet(self.src_idx).unwrap()
    }

    /// Get the word into which this edge leads.
    pub fn get_dest<'a>(&self, chain: &'a MarkovChain) -> (token: MarkovToken<'a>)
        requires
            self.dst_idx < chain@.textlets.len(),
        ensures
            token@ == chain@.textlets[self.dst_idx as int],
    {
        chain.get_textlet(self.dst_idx).unwrap()
    }

    /// Get the punctuation between the words this edge connects.
    pub fn get_punct<'a>(&self, chain: &'a MarkovChain) -> (token: MarkovToken<'a>)
        requires
            self.pct_idx < chain@.textlets.len(),
        ensures
            token@ == chain@.textlets[self.pct_idx as int],
    {
        chain.get_textlet(self.pct_idx).unwrap()
    }
}

/// The ids of an index as numbers.
pub open spec fn nats(ids: Seq<usize>) -> Seq<nat> {
    Seq::new(ids.len(), |i: int| ids[i] as nat)
}

/// An index from textlet ids to edge positions holds, for each id, the
/// positions of the links at that id, and no entry for an id without links.
spec fn index_agrees(index: Map<usize, Vec<usize>>, links: Seq<Link>, dir: MarkovTraverseDir) -> bool {
    forall|id: usize|
        #![trigger index.contains_key(id)]
        #![trigger links_at(links, dir, id as nat)]
        {
            &&& index.contains_key(id) <==> links_at(links, dir, id as nat).len() > 0
            &&& index.contains_key(id) ==> nats(index[id]@) == links_at(links, dir, id as nat)
        }
}

/// Whether every position that the index holds is below `len`.
spec fn listed(index: Map<usize, Vec<usize>>, len: nat) -> bool {
    forall|id: usize, j: int|
        index.contains_key(id) && 0 <= j < index[id]@.len() ==> (#[trigger] index[id]@[j]) < len
}

/// Whether every entry of `index` but the one at `but` stands in `after`
/// as it is.
spec fn others_kept(
    index: Map<usize, Vec<usize>>,
    after: Map<usize, Vec<usize>>,
    but: usize,
) -> bool {
    forall|id: usize| id != but && index.contains_key(id) ==> #[trigger] after[id] == index[id]
}

/// What a list of token triples stands for.
pub open spec fn triple_views(
    list: Seq<(LexedToken<'_>, LexedToken<'_>, LexedToken<'_>)>,
) -> Seq<(Lexeme, Lexeme, Lexeme)> {
    Seq::new(list.len(), |i: int| (list[i].0@, list[i].1@, list[i].2@))
}

/// A graph that links tokens together.
pub struct MarkovChain {
    textlet_bag: Vec<MarkovTokenOwned>,
    textlet_indices: StringHashMap<usize>,
    edge_list: Vec<Edge>,
    edges: HashMap<usize, Vec<usize>>,
    reverse_edges: HashMap<usize, Vec<usize>>,
    seedbag: Vec<usize>,
}

impl View for MarkovChain {
    type V = ChainModel;

    closed spec fn view(&self) -> ChainModel {
        ChainModel {
            textlets: Seq::new(self.textlet_bag@.len(), |i: int| self.textlet_bag@[i]@),
            links: Seq::new(self.edge_list@.len(), |e: int| self.edge_list@[e]@),
        }
    }
}

impl Default for MarkovChain {
    fn default() -> (chain: Self)
        ensures
            chain.wf(),
            chain@ == ChainModel::fresh(),
    {
        Self::new()
    }
}

impl MarkovChain {
    /// The lookup table, the two edge indices and the seed bag say what the
    /// textlets and the edges say.
    pub closed spec fn tables_agree(&self) -> bool {
        let bag = self.textlet_bag@;
        let ids = self.textlet_indices@;
        &&& forall|i: int|
            2 <= i < bag.len() ==> ids.contains_key(#[trigger] bag[i]@.text()) && ids[bag[i]@.text()]
                == i
        &&& forall|w: Seq<char>| #[trigger]
            ids.contains_key(w) ==> 2 <= ids[w] < bag.len() && bag[ids[w] as int]@
                == Textlet::Text(w)
        &&& index_agrees(self.edges@, self@.links, MarkovTraverseDir::Forward)
        &&& index_agrees(self.reverse_edges@, self@.links, MarkovTraverseDir::Reverse)
        &&& forall|i: int, j: int|
            0 <= i < j < self.seedbag@.len() ==> self.seedbag@[i] != self.seedbag@[j]
        &&& forall|id: usize| self.seedbag@.contains(id) <==> #[trigger] self.edges@.contains_key(id)
    }

    /// The chain is one that the model describes, and its tables agree.
    pub open spec fn sound(&self) -> bool {
        self.tables_agree() && self@.valid()
    }

    /// The chain is sound and every edge of it is a step of a sentence
    /// that was learned to its end. This holds of a new chain, and learning
    /// sentences keeps it.
    pub open spec fn wf(&self) -> bool {
        self.sound() && self@.linked()
    }

    /// Makes a new empty [`MarkovChain`].
    pub fn new() -> (chain: MarkovChain)
        ensures
            chain.wf(),
            chain@ == ChainModel::fresh(),
    {
        let mut textlet_bag = Vec::new();
        textlet_bag.push(MarkovTokenOwned::Begin);
        textlet_bag.push(MarkovTokenOwned::End);
        let chain = MarkovChain {
            textlet_bag,
            textlet_indices: StringHashMap::new(),
            edge_list: Vec::new(),
            edges: HashMap::new(),
            reverse_edges: HashMap::new(),
            seedbag: Vec::new(),
        };
        proof {
            assert(chain@.textlets =~= ChainModel::fresh().textlets);
            assert(chain@.links =~= ChainModel::fresh().links);
        }
        chain
    }

    /// Gets the index of a textlet in this chain; if the textlet is not
    /// found, makes a new one and returns that instead.
    pub fn ensure_textlet_index(&mut self, word: &str) -> (id: usize)
        requires
            old(self).sound(),
        ensures
            final(self).sound(),
            old(self).wf() ==> final(self).wf(),
            (final(self)@, id as nat) == old(self)@.intern(word@),
            final(self)@.id_of(word@) == Some(id as nat),
    {
        let ghost before = self@;
        proof {
            lemma_intern(before, word@);
            if before.linked() {
                lemma_more_textlets_linked(before, before.intern(word@).0, None);
            }
        }
        match self.textlet_indices.get(word) {
            Some(a) => {
                proof {
                    lemma_id_of(before, word@, *a as nat);
                }
                *a
            },
            None => {
                let i = self.textlet_bag.len();
                let owned = word.to_owned();
                let key = owned.clone();
                proof {
                    if before.id_of(word@) is Some {
                        let at = before.id_of(word@)->0 as int;
                        assert(self.textlet_bag@[at]@ == Textlet::Text(word@));
                        assert(self.textlet_indices@.contains_key(self.textlet_bag@[at]@.text()));
                    }
                }
                self.textlet_bag.push(MarkovTokenOwned::Textlet(owned));
                self.textlet_indices.insert(key, i);
                proof {
                    assert(self@.textlets =~= before.intern(word@).0.textlets);
                    assert(self@.links =~= before.links);
                    assert forall|j: int| 2 <= j < self.textlet_bag@.len() implies
                        self.textlet_indices@.contains_key(#[trigger] self.textlet_bag@[j]@.text())
                        && self.textlet_indices@[self.textlet_bag@[j]@.text()] == j by {
                        if j < i {
                            assert(old(self).textlet_bag@[j] == self.textlet_bag@[j]);
                            assert(old(self).textlet_indices@.contains_key(
                                old(self).textlet_bag@[j]@.text(),
                            ));
                            assert(before.textlets[j] is Text);
                        }
                    }
                    assert forall|w: Seq<char>| #[trigger]
                        self.textlet_indices@.contains_key(w) implies 2
                        <= self.textlet_indices@[w] < self.textlet_bag@.len()
                        && self.textlet_bag@[self.textlet_indices@[w] as int]@ == Textlet::Text(
                        w,
                    ) by {
                        if w != word@ {
                            assert(old(self).textlet_indices@.contains_key(w));
                        }
                    }
                }
                i
            },
        }
    }

    /// Get a textlet index from a [`LexedToken`].
    ///
    /// If one does not exist, make one and return that instead.
    pub fn ensure_textlet_from_token(&mut self, token: LexedToken) -> (id: usize)
        requires
            old(self).sound(),
        ensures
            final(self).sound(),
            old(self).wf() ==> final(self).wf(),
            (final(self)@, id as nat) == old(self)@.intern_token(token@),
    {
        match token {
            LexedToken::Begin => BEGIN,
            LexedToken::End => END,
            LexedToken::Punct(word) => self.ensure_textlet_index(word),
            LexedToken::Word(word) => self.ensure_textlet_index(word),
        }
    }

    /// Tries to get the index of a textlet in this chain.
    ///
    /// If the textlet is not registered, returns `None`.
    pub fn try_get_textlet_index(&self, word: &str) -> (id: Option<usize>)
        requires
            self.sound(),
        ensures
            id is Some <==> self@.id_of(word@) is Some,
            id is Some ==> id->0 as nat == self@.id_of(word@)->0,
    {
        match self.textlet_indices.get(word) {
            Some(a) => {
                proof {
                    lemma_id_of(self@, word@, *a as nat);
                }
                Some(*a)
            },
            None => {
                proof {
                    if self@.id_of(word@) is Some {
                        let at = self@.id_of(word@)->0 as int;
                        assert(self.textlet_bag@[at]@ == Textlet::Text(word@));
                        assert(self.textlet_indices@.contains_key(self.textlet_bag@[at]@.text()));
                    }
                }
                None
            },
        }
    }

    /// The first edge of `list` that leads from `from` to `to` over `punct`.
    fn find_edge(&self, list: &Vec<usize>, from: usize, to: usize, punct: usize) -> (found: Option<
        usize,
    >)
        requires
            forall|j: int| 0 <= j < list@.len() ==> list@[j] < self.edge_list@.len(),
        ensures
            match found {
                Some(e) => {
                    &&& list@.contains(e)
                    &&& self.edge_list@[e as int]@.same_key(
                        Link { src: from as nat, dst: to as nat, pct: punct as nat, hits: 0 },
                    )
                },
                None => forall|j: int|
                    0 <= j < list@.len() ==> !(#[trigger] self.edge_list@[list@[j] as int])@.same_key(
                        Link { src: from as nat, dst: to as nat, pct: punct as nat, hits: 0 },
                    ),
            },
    {
        let mut j: usize = 0;
        while j < list.len()
            invariant
                j <= list@.len(),
                forall|k: int| 0 <= k < list@.len() ==> list@[k] < self.edge_list@.len(),
                forall|k: int|
                    0 <= k < j ==> !(#[trigger] self.edge_list@[list@[k] as int])@.same_key(
                        Link { src: from as nat, dst: to as nat, pct: punct as nat, hits: 0 },
                    ),
            decreases list@.len() - j,
        {
            let e = list[j];
            let edge = &self.edge_list[e];
            if edge.src_idx == from && edge.dst_idx == to && edge.pct_idx == punct {
                return Some(e);
            }
            j += 1;
        }
        None
    }

    /// Puts a new edge at the end of the edge list, counted `hits` times, or
    /// once, and returns its position. The indices are left as they are.
    fn push_new_edge(&mut self, from: usize, to: usize, punct: usize, hits: Option<usize>) -> (idx:
        usize)
        ensures
            idx == old(self).edge_list@.len(),
            final(self).edge_list@ == old(self).edge_list@.push(
                Edge {
                    src_idx: from,
                    dst_idx: to,
                    hits: match hits {
                        Some(n) => n,
                        None => 1,
                    },
                    pct_idx: punct,
                },
            ),
            final(self).textlet_bag == old(self).textlet_bag,
            final(self).textlet_indices == old(self).textlet_indices,
            final(self).edges == old(self).edges,
            final(self).reverse_edges == old(self).reverse_edges,
            final(self).seedbag == old(self).seedbag,
    {
        let edge = Edge {
            src_idx: from,
            dst_idx: to,
            hits: match hits {
                Some(n) => n,
                None => 1,
            },
            pct_idx: punct,
        };
        let idx = self.edge_list.len();
        self.edge_list.push(edge);
        idx
    }

    /// Enters the edge at `edge_idx` in the reverse index, at the textlet
    /// it leads into, unless an edge from the same source over the same
    /// punctuation stands there already.
    fn add_reverse_edge(&mut self, edge_idx: usize)
        requires
            edge_idx < old(self).edge_list@.len(),
            listed(old(self).reverse_edges@, old(self).edge_list@.len()),
        ensures
            final(self).textlet_bag == old(self).textlet_bag,
            final(self).textlet_indices == old(self).textlet_indices,
            final(self).edge_list == old(self).edge_list,
            final(self).edges == old(self).edges,
            final(self).seedbag == old(self).seedbag,
            ({
                let edge = old(self).edge_list@[edge_idx as int];
                let index = old(self).reverse_edges@;
                let key = Link {
                    src: edge.src_idx as nat,
                    dst: edge.dst_idx as nat,
                    pct: edge.pct_idx as nat,
                    hits: 0,
                };
                let edges = old(self).edge_list@;
                let known = index.contains_key(edge.dst_idx) && exists|j: int|
                    0 <= j < index[edge.dst_idx]@.len() && (#[trigger] edges[index[edge.dst_idx]@[j] as int])@.same_key(
                        key,
                    );
                let list = if index.contains_key(edge.dst_idx) {
                    index[edge.dst_idx]@
                } else {
                    Seq::empty()
                };
                &&& known ==> final(self).reverse_edges@ == index
                &&& !known ==> final(self).reverse_edges@.dom() == index.dom().insert(edge.dst_idx)
                &&& !known ==> final(self).reverse_edges@[edge.dst_idx]@ == list.push(edge_idx)
                &&& !known ==> others_kept(index, final(self).reverse_edges@, edge.dst_idx)
            }),
    {
        let src = self.edge_list[edge_idx].src_idx;
        let dst = self.edge_list[edge_idx].dst_idx;
        let pct = self.edge_list[edge_idx].pct_idx;
        let ghost index = self.reverse_edges@;
        let known = match self.reverse_edges.get(&dst) {
            None => false,
            Some(rev_vec) => {
                let found = self.find_edge(rev_vec, src, dst, pct);
                proof {
                    if let Some(e) = found {
                        let j = choose|j: int| 0 <= j < rev_vec@.len() && rev_vec@[j] == e;
                        assert(self.edge_list@[index[dst]@[j] as int]@.same_key(
                            Link { src: src as nat, dst: dst as nat, pct: pct as nat, hits: 0 },
                        ));
                    }
                }
                found.is_some()
            },
        };
        if !known {
            let mut rev_vec = match self.reverse_edges.remove(&dst) {
                Some(rev_vec) => rev_vec,
                None => Vec::new(),
            };
            rev_vec.push(edge_idx);
            self.reverse_edges.insert(dst, rev_vec);
            proof {
                assert(self.reverse_edges@.dom() =~= index.dom().insert(dst));
            }
        }
    }

    /// Register a new edge between two word tokens in this chain.
    ///
    /// `from`, `to` and `punct` must be existing textlet indices, and
    /// `punct` that of a text, not of a marker.
    fn register_edge(&mut self, from: usize, to: usize, punct: usize)
        requires
            old(self).sound(),
            from < old(self)@.textlets.len(),
            to < old(self)@.textlets.len(),
            2 <= punct < old(self)@.textlets.len(),
        ensures
            final(self).sound(),
            final(self)@ == old(self)@.register(from as nat, to as nat, punct as nat),
    {
        let ghost before = self@;
        let ghost key = Link { src: from as nat, dst: to as nat, pct: punct as nat, hits: 0 };
        let ghost forward = MarkovTraverseDir::Forward;
        let ghost reverse = MarkovTraverseDir::Reverse;
        proof {
            lemma_register_valid(before, from as nat, to as nat, punct as nat);
            lemma_links_at(before.links, forward, from as nat);
            lemma_links_at(before.links, reverse, to as nat);
        }
        let found = match self.edges.get(&from) {
            Some(edgevec) => {
                proof {
                    assert(nats(edgevec@) == links_at(before.links, forward, from as nat));
                    assert forall|j: int| 0 <= j < edgevec@.len() implies edgevec@[j]
                        < self.edge_list@.len() by {
                        assert(nats(edgevec@)[j] == edgevec@[j] as nat);
                    }
                }
                let found = self.find_edge(edgevec, from, to, punct);
                proof {
                    if found is None {
                        assert forall|e: nat| e < before.links.len() implies !before.links[e as int].same_key(
                            key,
                        ) by {
                            if before.links[e as int].same_key(key) {
                                let at = links_at(before.links, forward, from as nat);
                                assert(before.links[e as int].near(forward) == from as nat);
                                assert(at.contains(e));
                                let j = choose|j: int| 0 <= j < at.len() && at[j] == e;
                                assert(nats(edgevec@)[j] == edgevec@[j] as nat);
                                assert(self.edge_list@[edgevec@[j] as int]@ == before.links[e as int]);
                            }
                        }
                    }
                }
                found
            },
            None => {
                proof {
                    assert forall|e: nat| e < before.links.len() implies !before.links[e as int].same_key(
                        key,
                    ) by {
                        if before.links[e as int].same_key(key) {
                            assert(before.links[e as int].near(forward) == from as nat);
                            assert(links_at(before.links, forward, from as nat).contains(e));
                        }
                    }
                }
                None
            },
        };
        if let Some(e) = found {
            let edge = &self.edge_list[e];
            let hits = if edge.hits < usize::MAX {
                edge.hits + 1
            } else {
                edge.hits
            };
            let bumped = Edge { src_idx: from, dst_idx: to, hits, pct_idx: punct };
            proof {
                assert(before.links[e as int] == self.edge_list@[e as int]@);
                lemma_link_of(before, e as nat);
            }
            self.edge_list.set(e, bumped);
            proof {
                let after = before.register(from as nat, to as nat, punct as nat);
                assert(self@.links =~= after.links);
                assert(self@.textlets =~= after.textlets);
                assert forall|id: usize|
                    #![trigger self.edges@.contains_key(id)]
                    #![trigger links_at(self@.links, forward, id as nat)]
                    links_at(self@.links, forward, id as nat) == links_at(
                        before.links,
                        forward,
                        id as nat,
                    ) by {
                    lemma_links_at_update(before.links, e as int, bumped@, forward, id as nat);
                }
                assert forall|id: usize|
                    #![trigger self.reverse_edges@.contains_key(id)]
                    #![trigger links_at(self@.links, reverse, id as nat)]
                    links_at(self@.links, reverse, id as nat) == links_at(
                        before.links,
                        reverse,
                        id as nat,
                    ) by {
                    lemma_links_at_update(before.links, e as int, bumped@, reverse, id as nat);
                }
            }
            return ;
        }
        if !self.edges.contains_key(&from) {
            self.seedbag.push(from);
        }
        let idx = self.push_new_edge(from, to, punct, None);
        let mut edgevec = match self.edges.remove(&from) {
            Some(edgevec) => edgevec,
            None => Vec::new(),
        };
        edgevec.push(idx);
        self.edges.insert(from, edgevec);
        let ghost link = Link { src: from as nat, dst: to as nat, pct: punct as nat, hits: 1 };
        proof {
            let after = before.register(from as nat, to as nat, punct as nat);
            assert(before.link_of(from as nat, to as nat, punct as nat) is None);
            assert(self@.links =~= after.links);
            assert(self@.textlets =~= after.textlets);
            assert(after.links == before.links.push(link));
            assert forall|id: usize|
                #![trigger self.edges@.contains_key(id)]
                #![trigger links_at(self@.links, forward, id as nat)]
                {
                    &&& self.edges@.contains_key(id) <==> links_at(
                        self@.links,
                        forward,
                        id as nat,
                    ).len() > 0
                    &&& self.edges@.contains_key(id) ==> nats(self.edges@[id]@) == links_at(
                        self@.links,
                        forward,
                        id as nat,
                    )
                } by {
                lemma_links_at_push(before.links, link, forward, id as nat);
                assert(old(self).edges@.contains_key(id) <==> links_at(
                    before.links,
                    forward,
                    id as nat,
                ).len() > 0);
                if id == from {
                    assert(nats(self.edges@[id]@) =~= links_at(self@.links, forward, id as nat));
                }
            }
            assert forall|id: usize, j: int|
                self.reverse_edges@.contains_key(id) && 0 <= j
                    < self.reverse_edges@[id]@.len() implies (
            #[trigger] self.reverse_edges@[id]@[j]) < self.edge_list@.len() by {
                lemma_links_at(before.links, reverse, id as nat);
                assert(nats(self.reverse_edges@[id]@)[j] == self.reverse_edges@[id]@[j] as nat);
            }
            assert forall|i: int, j: int| 0 <= i < j < self.seedbag@.len() implies self.seedbag@[i]
                != self.seedbag@[j] by {
                if j == old(self).seedbag@.len() {
                    assert(old(self).seedbag@.contains(old(self).seedbag@[i]));
                }
            }
            assert forall|id: usize| self.seedbag@.contains(id) <==> #[trigger]
                self.edges@.contains_key(id) by {
                if old(self).edges@.contains_key(from) {
                    assert(self.seedbag@ == old(self).seedbag@);
                } else {
                    assert(self.seedbag@ == old(self).seedbag@.push(from));
                    if id == from {
                        assert(self.seedbag@[self.seedbag@.len() - 1] == from);
                    } else if old(self).seedbag@.contains(id) {
                        let k = choose|k: int|
                            0 <= k < old(self).seedbag@.len() && old(self).seedbag@[k] == id;
                        assert(self.seedbag@[k] == id);
                    }
                }
            }
        }
        let ghost index = self.reverse_edges@;
        let ghost listed = self.edge_list@;
        self.add_reverse_edge(idx);
        proof {
            let known = index.contains_key(to) && exists|j: int|
                0 <= j < index[to]@.len() && (#[trigger] listed[index[to]@[j] as int])@.same_key(
                    key,
                );
            if known {
                let j = choose|j: int|
                    0 <= j < index[to]@.len() && (#[trigger] listed[index[to]@[j] as int])@.same_key(
                        key,
                    );
                lemma_links_at(before.links, reverse, to as nat);
                assert(nats(index[to]@)[j] == index[to]@[j] as nat);
                let e = index[to]@[j] as int;
                assert(e < before.links.len());
                assert(before.links[e] == listed[e]@);
                assert(false);
            }
            assert forall|id: usize|
                #![trigger self.reverse_edges@.contains_key(id)]
                #![trigger links_at(self@.links, reverse, id as nat)]
                {
                    &&& self.reverse_edges@.contains_key(id) <==> links_at(
                        self@.links,
                        reverse,
                        id as nat,
                    ).len() > 0
                    &&& self.reverse_edges@.contains_key(id) ==> nats(self.reverse_edges@[id]@)
                        == links_at(self@.links, reverse, id as nat)
                } by {
                lemma_links_at_push(before.links, link, reverse, id as nat);
                assert(index.contains_key(id) <==> links_at(before.links, reverse, id as nat).len()
                    > 0);
                if id == to {
                    assert(nats(self.reverse_edges@[id]@) =~= links_at(
                        self@.links,
                        reverse,
                        id as nat,
                    ));
                } else if index.contains_key(id) {
                    assert(self.reverse_edges@[id] == index[id]);
                }
            }
        }
    }

    /// Parse a sentence, registering textlets and edges for it.
    ///
    /// The empty sentence changes nothing. Any other is split into tokens,
    /// and each word, the punctuation after it and the next word are
    /// registered as an edge, from the beginning marker to the end marker.
    /// An edge that the chain has already is counted once more, up to the
    /// highest count that a `usize` holds.
    pub fn parse_sentence(&mut self, sentence: &str)
        requires
            old(self).wf(),
        ensures
            final(self).wf(),
            final(self)@ == old(self)@.parse(sentence@),
    {
        let ghost before = self@;
        let ghost tokens = tokenize(sentence@);
        let ghost ts = triples(tokens);
        proof {
            lemma_tokenize_alternates(sentence@);
            lemma_triples_chained(sentence@);
            lemma_parse_linked(before, sentence@);
        }
        let mut lexer = Lexer::new(sentence);
        let mut curr_token = lexer.next();
        let mut to_register: Vec<(LexedToken, LexedToken, LexedToken)> = Vec::new();
        if sentence.is_empty() {
            return ;
        }
        let ghost mut j: int = 0;
        proof {
            assert(tokens.drop_first() =~= tokens.skip(1));
        }
        loop
            invariant_except_break
                lexer.wf(),
                lexer.pending() == tokens.skip(2 * j + 1),
                curr_token is Some,
                curr_token->0@ == tokens[2 * j],
                to_register@.len() == j,
                triple_views(to_register@) == ts.take(j),
            invariant
                tokens == tokenize(sentence@),
                ts == triples(tokens),
                tokens.len() == 2 * ts.len() + 1,
                0 <= j < ts.len(),
                forall|i: int|
                    1 <= i < tokens.len() - 1 ==> if i % 2 == 1 {
                        #[trigger] tokens[i] is Punct
                    } else {
                        tokens[i] is Word
                    },
                tokens[tokens.len() - 1] is End,
            ensures
                triple_views(to_register@) == ts,
            decreases ts.len() - j,
        {
            let token = match curr_token {
                Some(token) => token,
                None => {
                    return ;
                },
            };
            proof {
                assert(tokens.skip(2 * j + 1)[0] == tokens[2 * j + 1]);
                assert(tokens.skip(2 * j + 1).drop_first() =~= tokens.skip(2 * j + 2));
                assert(tokens.skip(2 * j + 2)[0] == tokens[2 * j + 2]);
                assert(tokens.skip(2 * j + 2).drop_first() =~= tokens.skip(2 * j + 3));
            }
            let punct = lexer.next();
            let next_token = lexer.next();
            let (punct, next_token) = match (punct, next_token) {
                (Some(punct), Some(next_token)) => (punct, next_token),
                _ => {
                    return ;
                },
            };
            let ghost earlier = to_register@;
            to_register.push((token, punct, next_token));
            proof {
                assert(ts[j] == (token@, punct@, next_token@));
                assert forall|k: int| 0 <= k < j + 1 implies triple_views(to_register@)[k]
                    == ts.take(j + 1)[k] by {
                    if k < j {
                        assert(triple_views(earlier)[k] == ts.take(j)[k]);
                    }
                }
                assert(triple_views(to_register@) =~= ts.take(j + 1));
            }
            if let LexedToken::End = next_token {
                proof {
                    if 2 * j + 2 < tokens.len() - 1 {
                        assert(tokens[2 * j + 2] is Word);
                    }
                    assert(ts.take(j + 1) =~= ts);
                }
                break ;
            }
            curr_token = Some(next_token);
            proof {
                j = j + 1;
            }
        }
        let mut i: usize = 0;
        while i < to_register.len()
            invariant
                i <= to_register@.len(),
                triple_views(to_register@) == ts,
                forall|j: int| 0 <= j < ts.len() ==> (#[trigger] ts[j]).1 is Punct,
                self.sound(),
                self@ == before.absorb_all(ts.take(i as int)),
            decreases to_register@.len() - i,
        {
            let ghost prev = self@;
            let (src, pct, dst) = to_register[i];
            proof {
                assert(ts[i as int] == (src@, pct@, dst@));
                lemma_intern_token(prev, src@);
                lemma_intern_token(prev.intern_token(src@).0, pct@);
                lemma_intern_token(prev.intern_token(src@).0.intern_token(pct@).0, dst@);
            }
            let src = self.ensure_textlet_from_token(src);
            let pct = self.ensure_textlet_from_token(pct);
            let dst = self.ensure_textlet_from_token(dst);
            self.register_edge(src, dst, pct);
            proof {
                assert(ts.take(i + 1).drop_last() =~= ts.take(i as int));
                assert(ts.take(i + 1).last() == ts[i as int]);
            }
            i += 1;
        }
        proof {
            assert(ts.take(i as int) =~= ts);
        }
    }

    /// The id of the textlet at which a walk from `seed` starts.
    pub(crate) fn get_seed(&self, seed: MarkovSeed, rng: &mut ThreadRng) -> (found: Result<usize, MarkovError>)
        requires
            self.sound(),
        ensures
            match found {
                Ok(id) => starts_at(self@, seed, id as nat),
                Err(MarkovError::SeedNotFound) => seed matches MarkovSeed::Word(word) && self@.id_of(
                    word@,
                ) is None,
                Err(MarkovError::EmptyChain) => seed is Random && self@.links.len() == 0,
                Err(MarkovError::DeadEnd(_)) => false,
            },
    {
        match seed {
            MarkovSeed::Word(seed) => {
                match self.try_get_textlet_index(seed) {
                    Some(from) => Ok(from),
                    None => Err(MarkovError::SeedNotFound),
                }
            },
            MarkovSeed::Id(seed) => Ok(seed),
            MarkovSeed::Random => {
                let n = self.seedbag.len();
                if n == 0 {
                    proof {
                        if self@.links.len() > 0 {
                            let src = self.edge_list@[0].src_idx;
                            lemma_links_at(self@.links, MarkovTraverseDir::Forward, src as nat);
                            assert(self@.links[0].near(MarkovTraverseDir::Forward) == src as nat);
                            assert(self.edges@.contains_key(src));
                            assert(self.seedbag@.contains(src));
                        }
                    }
                    return Err(MarkovError::EmptyChain);
                }
                let from = draw_below(rng, n as u128) as usize;
                let id = self.seedbag[from];
                proof {
                    assert(self.seedbag@.contains(id));
                    assert(self.edges@.contains_key(id));
                    lemma_has_link(self@, MarkovTraverseDir::Forward, id as nat);
                }
                Ok(id)
            },
        }
    }

    /// Chooses one of `edges` by their `weights`, as a selector of type
    /// `sel_type` asks; a random choice draws a number from 1 to the sum of
    /// the weights, each with the same chance, and takes the first edge
    /// if all the weights are 0.
    fn _weighted_select(
        &self,
        sel_type: SelectionType,
        edges: &Vec<usize>,
        weights: &Vec<u64>,
        rng: &mut ThreadRng,
    ) -> (edge: &Edge)
        requires
            edges@.len() == weights@.len(),
            edges@.len() > 0,
            forall|i: int| 0 <= i < edges@.len() ==> edges@[i] < self.edge_list@.len(),
        ensures
            exists|pos: int, draw: nat|
                {
                    &&& drawn(sel_type, weights@, draw)
                    &&& #[trigger] chosen(sel_type, weights@, draw, pos)
                    &&& 0 <= pos < edges@.len()
                    &&& *edge == self.edge_list@[edges@[pos] as int]
                },
    {
        let draw = match sel_type {
            SelectionType::WeightedRandom => {
                let sum = sum_weights(weights);
                if sum > 0 {
                    draw_below(rng, sum) + 1
                } else {
                    0
                }
            },
            _ => 0,
        };
        let pos = weighted_select(sel_type, weights, draw);
        proof {
            assert(chosen(sel_type, weights@, draw as nat, pos as int));
        }
        &self.edge_list[edges[pos]]
    }

    /// Selects the word following the current one (`seed`) based on the
    /// criteria of a [`MarkovSelector`] (`selector`).
    ///
    /// Returns a tuple (`dest`, `inbetween`, `dest_idx`, `inbetween_idx`).
    /// The last two items are the ids of the first two, which can be reused
    /// as seeds.
    ///
    /// `inbetween` is all of the whitespace and punctuation lying between
    /// the seed and `dest`.
    ///
    /// The selector is reset, asked for the weight of every edge that leaves
    /// the seed in the direction of the walk, in the order in which the
    /// edges were made, and then for its selection type;
    /// [`weighted_select`] says which of the edges its answers choose.
    pub fn select_next_word<S: MarkovSelector + ?Sized>(
        &self,
        seed: MarkovSeed,
        selector: &mut S,
        direction: MarkovTraverseDir,
    ) -> (next: Result<(MarkovToken<'_>, MarkovToken<'_>, usize, usize), MarkovError>)
        requires
            self.sound(),
        ensures
            match next {
                Ok((dest, punct, dest_id, punct_id)) => {
                    &&& exists|from: nat| #[trigger]
                        starts_at(self@, seed, from) && selected(
                            old(selector),
                            final(selector),
                            self@,
                            direction,
                            from,
                            punct_id as nat,
                            dest_id as nat,
                        )
                    &&& dest_id < self@.textlets.len()
                    &&& 2 <= punct_id < self@.textlets.len()
                    &&& dest@ == self@.textlets[dest_id as int]
                    &&& punct@ == self@.textlets[punct_id as int]
                    &&& punct@ is Text
                },
                Err(MarkovError::SeedNotFound) => seed matches MarkovSeed::Word(word) && self@.id_of(
                    word@,
                ) is None,
                Err(MarkovError::EmptyChain) => seed is Random && self@.links.len() == 0,
                Err(MarkovError::DeadEnd(id)) => starts_at(self@, seed, id as nat) && !self@.has_link(
                    direction,
                    id as nat,
                ),
            },
            next is Err ==> same(old(selector), final(selector)),
            seed matches MarkovSeed::Id(id) ==> (next is Ok <==> self@.has_link(
                direction,
                id as nat,
            )),
            seed matches MarkovSeed::Word(word) ==> (next is Ok <==> self@.id_of(word@) is Some
                && self@.has_link(direction, self@.id_of(word@)->0)),
    {
        let mut rng = rand::thread_rng();
        let from: usize = match self.get_seed(seed, &mut rng) {
            Ok(from) => from,
            Err(e) => {
                return Err(e);
            },
        };
        proof {
            lemma_has_link(self@, direction, from as nat);
            lemma_links_at(self@.links, direction, from as nat);
        }
        let edges = match direction {
            MarkovTraverseDir::Forward => self.edges.get(&from),
            MarkovTraverseDir::Reverse => self.reverse_edges.get(&from),
        };
        let edges = match edges {
            Some(edges) => edges,
            None => {
                return Err(MarkovError::DeadEnd(from));
            },
        };
        if edges.len() == 0 {
            return Err(MarkovError::DeadEnd(from));
        }
        let ghost at = links_at(self@.links, direction, from as nat);
        proof {
            assert(nats(edges@) == at);
            assert forall|i: int| 0 <= i < edges@.len() implies edges@[i] < self.edge_list@.len()
                && self@.links[edges@[i] as int].near(direction) == from as nat by {
                assert(nats(edges@)[i] == edges@[i] as nat);
            }
        }
        let mut weights: Vec<u64> = Vec::new();
        selector.reset(direction);
        let mut i: usize = 0;
        proof {
            assert(at.take(0) =~= Seq::<nat>::empty());
        }
        while i < edges.len()
            invariant
                self.sound(),
                i <= edges@.len(),
                weights@.len() == i,
                nats(edges@) == at,
                at == links_at(self@.links, direction, from as nat),
                forall|k: int| 0 <= k < edges@.len() ==> edges@[k] < self.edge_list@.len(),
                asked(old(selector), direction, self@, at.take(i as int), weights@, selector),
            decreases edges@.len() - i,
        {
            let edge = &self.edge_list[edges[i]];
            let ghost mid = &*selector;
            let ghost earlier = weights@;
            proof {
                assert(self@.links[edges@[i as int] as int] == edge@);
                assert(at[i as int] == edges@[i as int] as nat);
            }
            let weight = selector.weight(
                &edge.get_source(self),
                &edge.get_dest(self),
                &edge.get_punct(self),
                edge.hits,
            );
            weights.push(weight);
            proof {
                let more = at.take(i + 1);
                let link = self@.links[more.last() as int];
                assert(more.drop_last() =~= at.take(i as int));
                assert(more.last() == at[i as int]);
                assert(weights@.drop_last() =~= earlier);
                assert(link == edge@);
                assert(link.hits as usize == edge.hits);
                assert(asked(
                    old(selector),
                    direction,
                    self@,
                    more.drop_last(),
                    weights@.drop_last(),
                    mid,
                ) && mid.weighs(
                    self@.textlets[link.src as int],
                    self@.textlets[link.dst as int],
                    self@.textlets[link.pct as int],
                    link.hits as usize,
                    weights@.last(),
                    selector,
                ));
            }
            i += 1;
        }
        let ghost mid = &*selector;
        let sel_type = selector.selection_type();
        let best_edge: &Edge = self._weighted_select(sel_type, edges, &weights, &mut rng);
        proof {
            let (pos, draw) = choose|pos: int, draw: nat|
                {
                    &&& drawn(sel_type, weights@, draw)
                    &&& #[trigger] chosen(sel_type, weights@, draw, pos)
                    &&& 0 <= pos < edges@.len()
                    &&& *best_edge == self.edge_list@[edges@[pos] as int]
                };
            let e = edges@[pos] as int;
            assert(at[pos] == edges@[pos] as nat);
            assert(self@.links[e] == best_edge@);
            assert(self@.links[e].near(direction) == from as nat);
            assert(at.take(i as int) =~= at);
            assert(asked(old(selector), direction, self@, at, weights@, mid) && mid.selects(
                sel_type,
                selector,
            ));
            assert(decides(
                old(selector),
                selector,
                self@,
                direction,
                from as nat,
                weights@,
                sel_type,
                draw,
                pos,
            ));
            assert(selected(
                old(selector),
                selector,
                self@,
                direction,
                from as nat,
                best_edge.pct_idx as nat,
                best_edge@.far(direction),
            ));
        }
        match direction {
            MarkovTraverseDir::Forward => Ok(
                (
                    best_edge.get_dest(self),
                    best_edge.get_punct(self),
                    best_edge.dst_idx,
                    best_edge.pct_idx,
                ),
            ),
            MarkovTraverseDir::Reverse => Ok(
                (
                    best_edge.get_source(self),
                    best_edge.get_punct(self),
                    best_edge.src_idx,
                    best_edge.pct_idx,
                ),
            ),
        }
    }

    /// Gets the [`MarkovToken`] of a textlet by its index.
    pub fn get_textlet(&self, index: usize) -> (token: Option<MarkovToken<'_>>)
        ensures
            index < self@.textlets.len() ==> token is Some && token->0@
                == self@.textlets[index as int],
            index >= self@.textlets.len() ==> token is None,
    {
        if index < self.textlet_bag.len() {
            Some(MarkovToken::from(&self.textlet_bag[index]))
        } else {
            None
        }
    }

    /// The number of textlets in this chain.
    ///
    /// Includes unique instances of whitespace or punctuation, as well as
    /// the two markers.
    pub fn num_textlets(&self) -> (n: usize)
        ensures
            n == self@.textlets.len(),
    {
        self.textlet_bag.len()
    }

    /// The number of [`Edge`]s registered in this chain.
    ///
    /// Includes edges connected to the two markers.
    pub fn num_edges(&self) -> (n: usize)
        ensures
            n == self@.links.len(),
    {
        self.edge_list.len()
    }

    /// Get the textlet identifier of the beginning marker.
    pub fn begin(&self) -> (id: usize)
        ensures
            id == BEGIN,
            self.sound() ==> id < self@.textlets.len() && self@.textlets[id as int]
                == Textlet::Begin,
    {
        BEGIN
    }

    /// Get the textlet identifier of the end marker.
    pub fn end(&self) -> (id: usize)
        ensures
            id == END,
            self.sound() ==> id < self@.textlets.len() && self@.textlets[id as int] == Textlet::End,
    {
        END
    }

    /// Get the number of textlets of this Markov chain.
    pub fn len(&self) -> (n: usize)
        ensures
            n == self@.textlets.len(),
    {
        self.textlet_bag.len()
    }

    /// Returns whether the chain is empty: whether it has no edge.
    pub fn is_empty(&self) -> (b: bool)
        ensures
            b == (self@.links.len() == 0),
    {
        self.edge_list.len() == 0
    }
}

} // verus!
