//! The chain as a mathematical object: a table of textlets and a list of
//! counted links between them, and what learning a sentence does to both.
use vstd::prelude::*;

use super::body::MarkovTraverseDir;
use super::token::Textlet;
use crate::sentence::laws::{lemma_tokenize_alternates, lemma_tokenize_classes, well_classed};
use crate::sentence::lex::tokenize;
use crate::sentence::token::Lexeme;

verus! {

/// A directed link between two textlets, with the punctuation that stood
/// between them and the number of times the three were seen together.
pub struct Link {
    pub src: nat,
    pub dst: nat,
    pub pct: nat,
    pub hits: nat,
}

impl Link {
    /// Whether two links join the same textlets over the same punctuation.
    pub open spec fn same_key(self, other: Link) -> bool {
        self.src == other.src && self.dst == other.dst && self.pct == other.pct
    }

    /// The textlet at which the link starts when it is walked in `dir`.
    pub open spec fn near(self, dir: MarkovTraverseDir) -> nat {
        match dir {
            MarkovTraverseDir::Forward => self.src,
            MarkovTraverseDir::Reverse => self.dst,
        }
    }

    /// The textlet that the link leads to when it is walked in `dir`.
    pub open spec fn far(self, dir: MarkovTraverseDir) -> nat {
        match dir {
            MarkovTraverseDir::Forward => self.dst,
            MarkovTraverseDir::Reverse => self.src,
        }
    }
}

/// A count one higher, but for the highest count that the machine holds.
pub open spec fn bump(hits: nat) -> nat {
    if hits < usize::MAX {
        hits + 1
    } else {
        hits
    }
}

/// The triples `(word, punctuation, next word)` of a token sequence, each
/// overlapping the next in one word.
pub open spec fn triples(tokens: Seq<Lexeme>) -> Seq<(Lexeme, Lexeme, Lexeme)> {
    Seq::new(
        if tokens.len() >= 3 {
            ((tokens.len() - 1) / 2) as nat
        } else {
            0
        },
        |j: int| (tokens[2 * j], tokens[2 * j + 1], tokens[2 * j + 2]),
    )
}

/// The triples that a sentence is learned by: none for the empty sentence,
/// and for any other the triples of its tokens, from the beginning marker
/// to the end marker.
pub open spec fn sentence_triples(text: Seq<char>) -> Seq<(Lexeme, Lexeme, Lexeme)> {
    if text.len() == 0 {
        Seq::empty()
    } else {
        triples(tokenize(text))
    }
}

/// The positions of the links that start at `id` when walked in `dir`, in
/// the order in which the links were made.
pub open spec fn links_at(links: Seq<Link>, dir: MarkovTraverseDir, id: nat) -> Seq<nat>
    decreases links.len(),
{
    if links.len() == 0 {
        Seq::empty()
    } else if links.last().near(dir) == id {
        links_at(links.drop_last(), dir, id).push((links.len() - 1) as nat)
    } else {
        links_at(links.drop_last(), dir, id)
    }
}

/// What a chain holds.
pub struct ChainModel {
    /// The textlets, each at the position that is its id.
    pub textlets: Seq<Textlet>,
    /// The links, in the order in which they were first seen.
    pub links: Seq<Link>,
}

impl ChainModel {
    /// The chain that has learned nothing: the two markers and no link.
    pub open spec fn fresh() -> ChainModel {
        ChainModel { textlets: seq![Textlet::Begin, Textlet::End], links: Seq::empty() }
    }

    /// The markers come first, every other textlet is a text of its own,
    /// and the links join textlets of the chain over punctuation that is a
    /// text and no marker, each counted at least once and no more than the
    /// machine counts, and no two of them with the same ends and
    /// punctuation.
    pub open spec fn valid(self) -> bool {
        &&& self.textlets.len() >= 2
        &&& self.textlets[0] == Textlet::Begin
        &&& self.textlets[1] == Textlet::End
        &&& forall|i: int| 2 <= i < self.textlets.len() ==> #[trigger] self.textlets[i] is Text
        &&& forall|i: int, j: int|
            2 <= i < j < self.textlets.len() ==> #[trigger] self.textlets[i]
                != #[trigger] self.textlets[j]
        &&& forall|e: int|
            0 <= e < self.links.len() ==> {
                let link = #[trigger] self.links[e];
                &&& link.src < self.textlets.len()
                &&& link.dst < self.textlets.len()
                &&& 2 <= link.pct < self.textlets.len()
                &&& 1 <= link.hits <= usize::MAX
            }
        &&& forall|e: int, f: int|
            0 <= e < f < self.links.len() ==> !(#[trigger] self.links[e]).same_key(
                #[trigger] self.links[f],
            )
    }

    /// The id of the text `word`, if the chain has it.
    pub open spec fn id_of(self, word: Seq<char>) -> Option<nat> {
        if exists|i: nat| i < self.textlets.len() && self.textlets[i as int] == Textlet::Text(word) {
            Some(
                choose|i: nat|
                    i < self.textlets.len() && self.textlets[i as int] == Textlet::Text(word),
            )
        } else {
            None
        }
    }

    /// The chain once it has the text `word`, and the id of `word` in it:
    /// the id it had, or else the next free one.
    pub open spec fn intern(self, word: Seq<char>) -> (ChainModel, nat) {
        match self.id_of(word) {
            Some(id) => (self, id),
            None => (
                ChainModel { textlets: self.textlets.push(Textlet::Text(word)), links: self.links },
                self.textlets.len(),
            ),
        }
    }

    /// The chain once it has the token's text, and the token's id in it.
    pub open spec fn intern_token(self, token: Lexeme) -> (ChainModel, nat) {
        match token {
            Lexeme::Begin => (self, 0),
            Lexeme::End => (self, 1),
            Lexeme::Punct(word) => self.intern(word),
            Lexeme::Word(word) => self.intern(word),
        }
    }

    /// The position of the link from `src` to `dst` over `pct`, if any.
    pub open spec fn link_of(self, src: nat, dst: nat, pct: nat) -> Option<nat> {
        let key = Link { src, dst, pct, hits: 0 };
        if exists|e: nat| e < self.links.len() && self.links[e as int].same_key(key) {
            Some(choose|e: nat| e < self.links.len() && self.links[e as int].same_key(key))
        } else {
            None
        }
    }

    /// The chain after one more sighting of `src`, `pct`, `dst` in a row:
    /// their link counts one more, or is made, as the last, with a count of
    /// one.
    pub open spec fn register(self, src: nat, dst: nat, pct: nat) -> ChainModel {
        match self.link_of(src, dst, pct) {
            Some(e) => {
                let link = self.links[e as int];
                ChainModel {
                    textlets: self.textlets,
                    links: self.links.update(
                        e as int,
                        Link { src, dst, pct, hits: bump(link.hits) },
                    ),
                }
            },
            None => ChainModel {
                textlets: self.textlets,
                links: self.links.push(Link { src, dst, pct, hits: 1 }),
            },
        }
    }

    /// The chain after it has learned one triple: the word, the
    /// punctuation and the next word get their ids, in this order, and
    /// their link is registered.
    pub open spec fn absorb(self, triple: (Lexeme, Lexeme, Lexeme)) -> ChainModel {
        let (with_src, src) = self.intern_token(triple.0);
        let (with_pct, pct) = with_src.intern_token(triple.1);
        let (with_dst, dst) = with_pct.intern_token(triple.2);
        with_dst.register(src, dst, pct)
    }

    /// The chain after it has learned the triples, from the first to the
    /// last.
    pub open spec fn absorb_all(self, triples: Seq<(Lexeme, Lexeme, Lexeme)>) -> ChainModel
        decreases triples.len(),
    {
        if triples.len() == 0 {
            self
        } else {
            self.absorb_all(triples.drop_last()).absorb(triples.last())
        }
    }

    /// The chain after it has learned the sentence `text`, triple by
    /// triple.
    pub open spec fn parse(self, text: Seq<char>) -> ChainModel {
        self.absorb_all(sentence_triples(text))
    }

    /// The positions of the links that leave `id` when walked in `dir`.
    pub open spec fn candidates(self, dir: MarkovTraverseDir, id: nat) -> Seq<nat> {
        links_at(self.links, dir, id)
    }

    /// Whether some link leaves `id` when walked in `dir`.
    #[verifier::opaque]
    pub open spec fn has_link(self, dir: MarkovTraverseDir, id: nat) -> bool {
        exists|e: int| 0 <= e < self.links.len() && (#[trigger] self.links[e]).near(dir) == id
    }

    /// Every link is a step of a sentence: it leaves the beginning marker
    /// or a word that another link leads into, and it leads into the end
    /// marker or a word that another link leaves. Words are not empty. The
    /// one exception is the word `open_end`, where a sentence that is being
    /// learned has stopped for now: a link leads into it, none may leave it.
    pub open spec fn linked_but(self, open_end: Option<nat>) -> bool {
        &&& forall|e: int|
            0 <= e < self.links.len() ==> {
                let link = #[trigger] self.links[e];
                &&& link.src != 1
                &&& link.dst != 0
                &&& link.src == 0 || (self.textlets[link.src as int].text().len() > 0
                    && self.has_link(MarkovTraverseDir::Reverse, link.src))
                &&& link.dst == 1 || (self.textlets[link.dst as int].text().len() > 0 && (
                self.has_link(MarkovTraverseDir::Forward, link.dst) || open_end == Some(link.dst)))
            }
        &&& open_end matches Some(id) ==> 2 <= id < self.textlets.len() && self.has_link(
            MarkovTraverseDir::Reverse,
            id,
        )
    }

    /// Every link is a step of a sentence that was learned to its end.
    pub open spec fn linked(self) -> bool {
        self.linked_but(None)
    }
}

/// The triple at `j` ends in the word that the next triple begins with.
pub open spec fn follows(ts: Seq<(Lexeme, Lexeme, Lexeme)>, j: int) -> bool {
    ts[j + 1].0 == ts[j].2
}

/// The triples of a sentence: the first begins at the beginning marker,
/// the last ends at the end marker, punctuation stands in the middle of
/// each, and each but the last ends in the word that the next begins with.
pub open spec fn chained(ts: Seq<(Lexeme, Lexeme, Lexeme)>) -> bool {
    &&& ts.len() >= 1
    &&& ts[0].0 is Begin
    &&& ts[ts.len() - 1].2 is End
    &&& forall|j: int| 0 <= j < ts.len() ==> (#[trigger] ts[j]).1 is Punct
    &&& forall|j: int|
        0 <= j < ts.len() - 1 ==> (#[trigger] ts[j]).2 is Word && ts[j].2.text().len() > 0
    &&& forall|j: int| 0 <= j < ts.len() - 1 ==> #[trigger] follows(ts, j)
}

/// In a valid chain a text stands at one id only.
pub proof fn lemma_id_of(m: ChainModel, word: Seq<char>, id: nat)
    requires
        m.valid(),
        id < m.textlets.len(),
        m.textlets[id as int] == Textlet::Text(word),
    ensures
        m.id_of(word) == Some(id),
{
    let found = m.id_of(word)->0;
    assert(found < m.textlets.len() && m.textlets[found as int] == Textlet::Text(word));
    if found < id {
        assert(m.textlets[found as int] != m.textlets[id as int]);
    } else if id < found {
        assert(m.textlets[id as int] != m.textlets[found as int]);
    }
}

/// Interning keeps a chain valid, keeps every textlet at its id, and puts
/// the word at the id that it returns.
pub proof fn lemma_intern(m: ChainModel, word: Seq<char>)
    requires
        m.valid(),
    ensures
        m.intern(word).0.valid(),
        m.intern(word).0.links == m.links,
        m.intern(word).0.textlets.len() >= m.textlets.len(),
        m.intern(word).0.textlets.take(m.textlets.len() as int) == m.textlets,
        2 <= m.intern(word).1 < m.intern(word).0.textlets.len(),
        m.intern(word).0.textlets[m.intern(word).1 as int] == Textlet::Text(word),
        m.intern(word).0.id_of(word) == Some(m.intern(word).1),
{
    let (after, id) = m.intern(word);
    match m.id_of(word) {
        Some(i) => {
            assert(after.textlets.take(m.textlets.len() as int) =~= m.textlets);
        },
        None => {
            assert(after.textlets.take(m.textlets.len() as int) =~= m.textlets);
            assert forall|i: int, j: int| 2 <= i < j < after.textlets.len() implies #[trigger]
                after.textlets[i] != #[trigger] after.textlets[j] by {
                if j == m.textlets.len() {
                    assert(m.textlets[i] != Textlet::Text(word));
                }
            }
            assert(after.textlets[id as int] == Textlet::Text(word));
        },
    }
    lemma_id_of(after, word, id);
}

/// A new last link joins the links at the textlet where it starts, as the
/// last of them, and leaves the links at every other textlet as they were.
pub proof fn lemma_links_at_push(links: Seq<Link>, link: Link, dir: MarkovTraverseDir, id: nat)
    ensures
        links_at(links.push(link), dir, id) == if link.near(dir) == id {
            links_at(links, dir, id).push(links.len())
        } else {
            links_at(links, dir, id)
        },
{
    assert(links.push(link).drop_last() =~= links);
}

/// A link replaced by one with the same ends leaves the links at every
/// textlet as they were.
pub proof fn lemma_links_at_update(
    links: Seq<Link>,
    e: int,
    link: Link,
    dir: MarkovTraverseDir,
    id: nat,
)
    requires
        0 <= e < links.len(),
        link.near(dir) == links[e].near(dir),
    ensures
        links_at(links.update(e, link), dir, id) == links_at(links, dir, id),
    decreases links.len(),
{
    let updated = links.update(e, link);
    if e == links.len() - 1 {
        assert(updated.drop_last() =~= links.drop_last());
    } else {
        lemma_links_at_update(links.drop_last(), e, link, dir, id);
        assert(updated.drop_last() =~= links.drop_last().update(e, link));
    }
}

/// The links at a textlet are the links that start there, each once, in
/// rising order.
pub proof fn lemma_links_at(links: Seq<Link>, dir: MarkovTraverseDir, id: nat)
    ensures
        forall|j: int|
            0 <= j < links_at(links, dir, id).len() ==> {
                let e = #[trigger] links_at(links, dir, id)[j];
                e < links.len() && links[e as int].near(dir) == id
            },
        forall|e: int|
            0 <= e < links.len() && (#[trigger] links[e]).near(dir) == id ==> links_at(
                links,
                dir,
                id,
            ).contains(e as nat),
        forall|i: int, j: int|
            0 <= i < j < links_at(links, dir, id).len() ==> links_at(links, dir, id)[i] < links_at(
                links,
                dir,
                id,
            )[j],
    decreases links.len(),
{
    let at = links_at(links, dir, id);
    if links.len() > 0 {
        let front = links.drop_last();
        let before = links_at(front, dir, id);
        lemma_links_at(front, dir, id);
        assert forall|e: int| 0 <= e < links.len() && (#[trigger] links[e]).near(dir)
            == id implies at.contains(e as nat) by {
            if e < links.len() - 1 {
                assert(front[e] == links[e]);
                assert(before.contains(e as nat));
                let j = choose|j: int| 0 <= j < before.len() && before[j] == e as nat;
                assert(at[j] == e as nat);
            } else {
                assert(at[at.len() - 1] == e as nat);
            }
        }
        assert forall|j: int| 0 <= j < at.len() implies {
            let e = #[trigger] at[j];
            e < links.len() && links[e as int].near(dir) == id
        } by {
            if j < before.len() {
                assert(at[j] == before[j]);
                assert(front[before[j] as int] == links[before[j] as int]);
            }
        }
        assert forall|i: int, j: int| 0 <= i < j < at.len() implies at[i] < at[j] by {
            if j < before.len() {
                assert(at[i] == before[i] && at[j] == before[j]);
            } else {
                assert(at[i] == before[i]);
            }
        }
    }
}

/// In a valid chain a link is the only one with its ends and punctuation.
pub proof fn lemma_link_of(m: ChainModel, e: nat)
    requires
        m.valid(),
        e < m.links.len(),
    ensures
        m.link_of(m.links[e as int].src, m.links[e as int].dst, m.links[e as int].pct) == Some(e),
{
    let link = m.links[e as int];
    let key = Link { src: link.src, dst: link.dst, pct: link.pct, hits: 0 };
    assert(m.links[e as int].same_key(key));
    let found = m.link_of(link.src, link.dst, link.pct)->0;
    assert(found < m.links.len() && m.links[found as int].same_key(key));
    if found < e {
        assert(!m.links[found as int].same_key(m.links[e as int]));
    } else if e < found {
        assert(!m.links[e as int].same_key(m.links[found as int]));
    }
}

/// Registering keeps a chain valid when the three ids are textlets of it
/// and the punctuation is no marker.
pub proof fn lemma_register_valid(m: ChainModel, src: nat, dst: nat, pct: nat)
    requires
        m.valid(),
        src < m.textlets.len(),
        dst < m.textlets.len(),
        2 <= pct < m.textlets.len(),
    ensures
        m.register(src, dst, pct).valid(),
{
    let after = m.register(src, dst, pct);
    let key = Link { src, dst, pct, hits: 0 };
    match m.link_of(src, dst, pct) {
        Some(e) => {
            assert(m.links[e as int].same_key(key));
            assert forall|a: int, b: int| 0 <= a < b < after.links.len() implies !(
            #[trigger] after.links[a]).same_key(#[trigger] after.links[b]) by {
                assert(!m.links[a].same_key(m.links[b]));
            }
            assert forall|a: int| 0 <= a < after.links.len() implies {
                let link = #[trigger] after.links[a];
                &&& link.src < after.textlets.len()
                &&& link.dst < after.textlets.len()
                &&& 2 <= link.pct < after.textlets.len()
                &&& 1 <= link.hits <= usize::MAX
            } by {
                assert(1 <= m.links[a].hits <= usize::MAX);
            }
        },
        None => {
            assert forall|a: int, b: int| 0 <= a < b < after.links.len() implies !(
            #[trigger] after.links[a]).same_key(#[trigger] after.links[b]) by {
                if b == m.links.len() {
                    assert(!m.links[a].same_key(key));
                } else {
                    assert(!m.links[a].same_key(m.links[b]));
                }
            }
            assert forall|a: int| 0 <= a < after.links.len() implies {
                let link = #[trigger] after.links[a];
                &&& link.src < after.textlets.len()
                &&& link.dst < after.textlets.len()
                &&& 2 <= link.pct < after.textlets.len()
                &&& 1 <= link.hits <= usize::MAX
            } by {
                if a < m.links.len() {
                    assert(1 <= m.links[a].hits <= usize::MAX);
                }
            }
        },
    }
}

/// Some link leaves a textlet exactly when the list of its links is not
/// empty.
pub proof fn lemma_has_link(m: ChainModel, dir: MarkovTraverseDir, id: nat)
    ensures
        m.has_link(dir, id) <==> m.candidates(dir, id).len() > 0,
{
    reveal(ChainModel::has_link);
    lemma_links_at(m.links, dir, id);
    let at = m.candidates(dir, id);
    if at.len() > 0 {
        assert(m.links[at[0] as int].near(dir) == id);
    }
    if m.has_link(dir, id) {
        let e = choose|e: int| 0 <= e < m.links.len() && (#[trigger] m.links[e]).near(dir) == id;
        assert(at.contains(e as nat));
    }
}

/// The triples of a sentence are chained.
pub proof fn lemma_triples_chained(s: Seq<char>)
    ensures
        chained(triples(tokenize(s))),
        tokenize(s).len() == 2 * triples(tokenize(s)).len() + 1,
{
    lemma_tokenize_alternates(s);
    lemma_tokenize_classes(s);
    let tokens = tokenize(s);
    let ts = triples(tokens);
    let n = ts.len() as int;
    assert(tokens.len() == 2 * n + 1);
    assert(ts[0].0 == tokens[0]);
    assert(ts[n - 1].2 == tokens[2 * (n - 1) + 2]);
    assert forall|j: int| 0 <= j < n implies (#[trigger] ts[j]).1 is Punct by {
        let i = 2 * j + 1;
        assert(ts[j].1 == tokens[i]);
        assert(1 <= i < tokens.len() - 1 && i % 2 == 1);
        assert(tokens[i] is Punct);
    }
    assert forall|j: int| 0 <= j < n - 1 implies (#[trigger] ts[j]).2 is Word
        && ts[j].2.text().len() > 0 by {
        let i = 2 * j + 2;
        assert(ts[j].2 == tokens[i]);
        assert(1 <= i < tokens.len() - 1 && i % 2 == 0);
        assert(tokens[i] is Word);
        assert(well_classed(tokens[i]));
    }
    assert forall|j: int| 0 <= j < n - 1 implies #[trigger] follows(ts, j) by {
        assert(ts[j].2 == tokens[2 * j + 2]);
        assert(ts[j + 1].0 == tokens[2 * (j + 1)]);
    }
}

/// Learning a token keeps a chain valid and its links and earlier textlets
/// as they were; the token's id is a textlet of the chain, and it is the
/// token's id from then on.
pub proof fn lemma_intern_token(m: ChainModel, token: Lexeme)
    requires
        m.valid(),
    ensures
        m.intern_token(token).0.valid(),
        m.intern_token(token).0.links == m.links,
        m.intern_token(token).0.textlets.len() >= m.textlets.len(),
        m.intern_token(token).0.textlets.take(m.textlets.len() as int) == m.textlets,
        m.intern_token(token).1 < m.intern_token(token).0.textlets.len(),
        token is Begin <==> m.intern_token(token).1 == 0,
        token is End <==> m.intern_token(token).1 == 1,
        !(token is Begin || token is End) ==> m.intern_token(token).0.textlets[m.intern_token(
            token,
        ).1 as int] == Textlet::Text(token.text()),
{
    match token {
        Lexeme::Begin => {
            assert(m.textlets.take(m.textlets.len() as int) =~= m.textlets);
        },
        Lexeme::End => {
            assert(m.textlets.take(m.textlets.len() as int) =~= m.textlets);
        },
        Lexeme::Punct(word) => {
            lemma_intern(m, word);
        },
        Lexeme::Word(word) => {
            lemma_intern(m, word);
        },
    }
}

/// Textlets that are added change nothing for the links.
pub proof fn lemma_more_textlets_linked(m: ChainModel, more: ChainModel, open_end: Option<nat>)
    requires
        m.valid(),
        m.linked_but(open_end),
        more.links == m.links,
        more.textlets.len() >= m.textlets.len(),
        more.textlets.take(m.textlets.len() as int) == m.textlets,
    ensures
        more.linked_but(open_end),
{
    reveal(ChainModel::has_link);
    assert forall|e: int| 0 <= e < more.links.len() implies {
        let link = #[trigger] more.links[e];
        &&& link.src != 1
        &&& link.dst != 0
        &&& link.src == 0 || (more.textlets[link.src as int].text().len() > 0 && more.has_link(
            MarkovTraverseDir::Reverse,
            link.src,
        ))
        &&& link.dst == 1 || (more.textlets[link.dst as int].text().len() > 0 && (more.has_link(
            MarkovTraverseDir::Forward,
            link.dst,
        ) || open_end == Some(link.dst)))
    } by {
        let link = m.links[e];
        assert(more.textlets[link.src as int] == more.textlets.take(m.textlets.len() as int)[link.src as int]);
        assert(more.textlets[link.dst as int] == more.textlets.take(m.textlets.len() as int)[link.dst as int]);
        assert(m.has_link(MarkovTraverseDir::Reverse, link.src) ==> more.has_link(
            MarkovTraverseDir::Reverse,
            link.src,
        ));
        assert(m.has_link(MarkovTraverseDir::Forward, link.dst) ==> more.has_link(
            MarkovTraverseDir::Forward,
            link.dst,
        ));
    }
}

/// Registering keeps every textlet that had a link with one.
pub proof fn lemma_register_keeps_links(
    m: ChainModel,
    src: nat,
    dst: nat,
    pct: nat,
    dir: MarkovTraverseDir,
    id: nat,
)
    requires
        m.valid(),
    ensures
        m.has_link(dir, id) ==> m.register(src, dst, pct).has_link(dir, id),
        m.register(src, dst, pct).has_link(MarkovTraverseDir::Forward, src),
        m.register(src, dst, pct).has_link(MarkovTraverseDir::Reverse, dst),
        m.register(src, dst, pct).links.len() >= m.links.len(),
        forall|e: int|
            0 <= e < m.links.len() ==> (#[trigger] m.register(src, dst, pct).links[e]).same_key(
                m.links[e],
            ),
        forall|e: int|
            m.links.len() <= e < m.register(src, dst, pct).links.len() ==> (#[trigger] m.register(
                src,
                dst,
                pct,
            ).links[e]).same_key(Link { src, dst, pct, hits: 0 }),
{
    reveal(ChainModel::has_link);
    let after = m.register(src, dst, pct);
    let key = Link { src, dst, pct, hits: 0 };
    match m.link_of(src, dst, pct) {
        Some(at) => {
            assert(m.links[at as int].same_key(key));
            assert(after.links[at as int].near(MarkovTraverseDir::Forward) == src);
            assert(after.links[at as int].near(MarkovTraverseDir::Reverse) == dst);
            if m.has_link(dir, id) {
                let e = choose|e: int|
                    0 <= e < m.links.len() && (#[trigger] m.links[e]).near(dir) == id;
                assert(after.links[e].near(dir) == id);
            }
        },
        None => {
            let last = m.links.len() as int;
            assert(after.links[last].near(MarkovTraverseDir::Forward) == src);
            assert(after.links[last].near(MarkovTraverseDir::Reverse) == dst);
            if m.has_link(dir, id) {
                let e = choose|e: int|
                    0 <= e < m.links.len() && (#[trigger] m.links[e]).near(dir) == id;
                assert(after.links[e].near(dir) == id);
            }
        },
    }
}

/// Registering the next step of a sentence keeps the links in order: the
/// step leaves the beginning marker or the word where the sentence was
/// open, and the sentence is then open at the word that the step leads
/// into, or closed if that is the end marker.
pub proof fn lemma_register_linked(
    m: ChainModel,
    src: nat,
    dst: nat,
    pct: nat,
    open_end: Option<nat>,
)
    requires
        m.valid(),
        m.linked_but(open_end),
        src < m.textlets.len(),
        dst < m.textlets.len(),
        2 <= pct < m.textlets.len(),
        src != 1,
        dst != 0,
        src == 0 ==> open_end is None,
        src != 0 ==> open_end == Some(src) && m.textlets[src as int].text().len() > 0,
        dst != 1 ==> m.textlets[dst as int].text().len() > 0,
    ensures
        m.register(src, dst, pct).linked_but(
            if dst == 1 {
                None
            } else {
                Some(dst)
            },
        ),
{
    reveal(ChainModel::has_link);
    let after = m.register(src, dst, pct);
    let new_end = if dst == 1 {
        None
    } else {
        Some(dst)
    };
    let forward = MarkovTraverseDir::Forward;
    let reverse = MarkovTraverseDir::Reverse;
    lemma_register_keeps_links(m, src, dst, pct, forward, src);
    if src != 0 {
        lemma_register_keeps_links(m, src, dst, pct, reverse, src);
    }
    assert forall|e: int| 0 <= e < after.links.len() implies {
        let link = #[trigger] after.links[e];
        &&& link.src != 1
        &&& link.dst != 0
        &&& link.src == 0 || (after.textlets[link.src as int].text().len() > 0 && after.has_link(
            reverse,
            link.src,
        ))
        &&& link.dst == 1 || (after.textlets[link.dst as int].text().len() > 0 && (after.has_link(
            forward,
            link.dst,
        ) || new_end == Some(link.dst)))
    } by {
        let link = after.links[e];
        if e < m.links.len() {
            let was = m.links[e];
            assert(link.same_key(was));
            lemma_register_keeps_links(m, src, dst, pct, reverse, was.src);
            lemma_register_keeps_links(m, src, dst, pct, forward, was.dst);
            if open_end == Some(was.dst) {
                assert(was.dst == src);
            }
        } else {
            assert(link.same_key(Link { src, dst, pct, hits: 0 }));
        }
    }
}

/// Learning the next triple of a sentence keeps the chain valid and its
/// links in order, with the sentence now open at the word that the triple
/// ends in, or closed if it ends in the end marker.
pub proof fn lemma_absorb_linked(
    m: ChainModel,
    triple: (Lexeme, Lexeme, Lexeme),
    open_end: Option<nat>,
)
    requires
        m.valid(),
        m.linked_but(open_end),
        triple.1 is Punct,
        triple.0 is Begin || triple.0 is Word,
        triple.0 is Begin ==> open_end is None,
        triple.0 is Word ==> open_end is Some && m.textlets[open_end->0 as int] == Textlet::Text(
            triple.0.text(),
        ) && triple.0.text().len() > 0,
        triple.2 is End || triple.2 is Word,
        triple.2 is Word ==> triple.2.text().len() > 0,
    ensures
        m.absorb(triple).valid(),
        triple.2 is End ==> m.absorb(triple).linked(),
        triple.2 is Word ==> ({
            let after = m.absorb(triple);
            let id = after.id_of(triple.2.text());
            &&& id is Some
            &&& after.textlets[id->0 as int] == Textlet::Text(triple.2.text())
            &&& after.linked_but(id)
        }),
{
    let (with_src, src) = m.intern_token(triple.0);
    let (with_pct, pct) = with_src.intern_token(triple.1);
    let (with_dst, dst) = with_pct.intern_token(triple.2);
    let after = with_dst.register(src, dst, pct);
    lemma_intern_token(m, triple.0);
    lemma_intern_token(with_src, triple.1);
    lemma_intern_token(with_pct, triple.2);
    lemma_register_valid(with_dst, src, dst, pct);
    if triple.0 is Word {
        lemma_id_of(m, triple.0.text(), open_end->0);
        assert(with_src == m);
        assert(src == open_end->0);
    }
    lemma_more_textlets_linked(m, with_src, open_end);
    lemma_more_textlets_linked(with_src, with_pct, open_end);
    lemma_more_textlets_linked(with_pct, with_dst, open_end);
    assert(with_dst.textlets[src as int] == with_src.textlets[src as int]) by {
        assert(with_pct.textlets.take(with_src.textlets.len() as int)[src as int]
            == with_pct.textlets[src as int]);
        assert(with_dst.textlets.take(with_pct.textlets.len() as int)[src as int]
            == with_dst.textlets[src as int]);
    }
    lemma_register_linked(with_dst, src, dst, pct, open_end);
    if triple.2 is Word {
        lemma_id_of(with_dst, triple.2.text(), dst);
        assert(after.id_of(triple.2.text()) == with_dst.id_of(triple.2.text()));
    }
}

/// Learning the triples of a sentence keeps a chain valid and its links in
/// order.
pub proof fn lemma_absorb_all_linked(m: ChainModel, ts: Seq<(Lexeme, Lexeme, Lexeme)>, k: int)
    requires
        m.valid(),
        m.linked(),
        chained(ts),
        0 <= k <= ts.len(),
    ensures
        m.absorb_all(ts.take(k)).valid(),
        k == 0 || k == ts.len() ==> m.absorb_all(ts.take(k)).linked(),
        0 < k < ts.len() ==> ({
            let after = m.absorb_all(ts.take(k));
            let id = after.id_of(ts[k - 1].2.text());
            &&& id is Some
            &&& after.textlets[id->0 as int] == Textlet::Text(ts[k - 1].2.text())
            &&& after.linked_but(id)
        }),
    decreases k,
{
    if k > 0 {
        lemma_absorb_all_linked(m, ts, k - 1);
        let before = m.absorb_all(ts.take(k - 1));
        assert(ts.take(k).drop_last() =~= ts.take(k - 1));
        assert(ts.take(k).last() == ts[k - 1]);
        let triple = ts[k - 1];
        let open_end = if k == 1 {
            None
        } else {
            before.id_of(ts[k - 2].2.text())
        };
        if k > 1 {
            assert(follows(ts, k - 2));
            assert(ts[k - 2].2 is Word && ts[k - 1].0 == ts[k - 2].2);
        }
        if k < ts.len() {
            assert(ts[k - 1].2 is Word && ts[k - 1].2.text().len() > 0);
        }
        lemma_absorb_linked(before, triple, open_end);
    }
}

/// Learning a sentence keeps a chain valid and its links in order.
pub proof fn lemma_parse_linked(m: ChainModel, text: Seq<char>)
    requires
        m.valid(),
        m.linked(),
    ensures
        m.parse(text).valid(),
        m.parse(text).linked(),
{
    if text.len() > 0 {
        let ts = triples(tokenize(text));
        lemma_triples_chained(text);
        lemma_absorb_all_linked(m, ts, ts.len() as int);
        assert(ts.take(ts.len() as int) =~= ts);
    }
}

/// In a chain whose links are in order, a textlet with a link at one side
/// has one at the other side too, unless it is a marker.
pub proof fn lemma_linked_through(m: ChainModel, id: nat)
    requires
        m.valid(),
        m.linked(),
        m.has_link(MarkovTraverseDir::Forward, id) || m.has_link(MarkovTraverseDir::Reverse, id),
    ensures
        id < m.textlets.len(),
        id == 0 || m.has_link(MarkovTraverseDir::Reverse, id),
        id == 1 || m.has_link(MarkovTraverseDir::Forward, id),
        id >= 2 ==> m.textlets[id as int].text().len() > 0,
{
    reveal(ChainModel::has_link);
    if m.has_link(MarkovTraverseDir::Forward, id) {
        let e = choose|e: int|
            0 <= e < m.links.len() && (#[trigger] m.links[e]).near(MarkovTraverseDir::Forward)
                == id;
        assert(m.links[e].src == id);
    }
    if m.has_link(MarkovTraverseDir::Reverse, id) {
        let e = choose|e: int|
            0 <= e < m.links.len() && (#[trigger] m.links[e]).near(MarkovTraverseDir::Reverse)
                == id;
        assert(m.links[e].dst == id);
    }
}

} // verus!
