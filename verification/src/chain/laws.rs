//! What holds of every chain, however it was built.
use vstd::prelude::*;

use super::model::{
    bump, lemma_id_of, lemma_intern, lemma_intern_token, lemma_register_valid,
    lemma_triples_chained, sentence_triples, ChainModel, Link,
};
use super::reply::words_in;
use super::token::Textlet;
use crate::sentence::laws::lemma_tokenize_alternates;
use crate::sentence::lex::tokenize;
use crate::sentence::token::Lexeme;

verus! {

/// The textlet that a token is stored as.
pub open spec fn textlet_of(token: Lexeme) -> Textlet {
    match token {
        Lexeme::Begin => Textlet::Begin,
        Lexeme::End => Textlet::End,
        Lexeme::Word(word) => Textlet::Text(word),
        Lexeme::Punct(word) => Textlet::Text(word),
    }
}

/// What a triple says was seen: a word, the punctuation after it, and the
/// next word, as textlets.
pub open spec fn key_of(triple: (Lexeme, Lexeme, Lexeme)) -> (Textlet, Textlet, Textlet) {
    (textlet_of(triple.0), textlet_of(triple.1), textlet_of(triple.2))
}

/// How many of the triples say that `key` was seen.
pub open spec fn occurrences(
    ts: Seq<(Lexeme, Lexeme, Lexeme)>,
    key: (Textlet, Textlet, Textlet),
) -> nat
    decreases ts.len(),
{
    if ts.len() == 0 {
        0
    } else {
        occurrences(ts.drop_last(), key) + if key_of(ts.last()) == key {
            1nat
        } else {
            0nat
        }
    }
}

/// A count as the machine holds it: no higher than the highest `usize`.
pub open spec fn saturated(count: nat) -> nat {
    if count <= usize::MAX {
        count
    } else {
        usize::MAX as nat
    }
}

/// What the link at `e` says was seen, as textlets.
pub open spec fn link_key(m: ChainModel, e: int) -> (Textlet, Textlet, Textlet) {
    (
        m.textlets[m.links[e].src as int],
        m.textlets[m.links[e].pct as int],
        m.textlets[m.links[e].dst as int],
    )
}

/// How often the chain has seen `key`: the count of its link, or nothing
/// where it has no link.
pub open spec fn hits_of(m: ChainModel, key: (Textlet, Textlet, Textlet)) -> nat {
    if exists|e: int| 0 <= e < m.links.len() && link_key(m, e) == key {
        m.links[choose|e: int| 0 <= e < m.links.len() && link_key(m, e) == key].hits
    } else {
        0
    }
}

/// The chain after it has learned the sentence `text` `n` times over.
pub open spec fn parse_times(m: ChainModel, text: Seq<char>, n: nat) -> ChainModel
    decreases n,
{
    if n == 0 {
        m
    } else {
        parse_times(m, text, (n - 1) as nat).parse(text)
    }
}

/// In a valid chain every textlet stands at one id only.
pub proof fn lemma_textlets_distinct(m: ChainModel, i: int, j: int)
    requires
        m.valid(),
        0 <= i < m.textlets.len(),
        0 <= j < m.textlets.len(),
        m.textlets[i] == m.textlets[j],
    ensures
        i == j,
{
    if i >= 2 {
        assert(m.textlets[i] is Text);
    }
    if j >= 2 {
        assert(m.textlets[j] is Text);
    }
    if 2 <= i < j {
        assert(m.textlets[i] != m.textlets[j]);
    }
    if 2 <= j < i {
        assert(m.textlets[j] != m.textlets[i]);
    }
}

/// In a valid chain the count of what a link says is the link's count.
pub proof fn lemma_hits_of_link(m: ChainModel, e: int)
    requires
        m.valid(),
        0 <= e < m.links.len(),
    ensures
        hits_of(m, link_key(m, e)) == m.links[e].hits,
        hits_of(m, link_key(m, e)) >= 1,
{
    let key = link_key(m, e);
    let f = choose|f: int| 0 <= f < m.links.len() && link_key(m, f) == key;
    lemma_textlets_distinct(m, m.links[e].src as int, m.links[f].src as int);
    lemma_textlets_distinct(m, m.links[e].pct as int, m.links[f].pct as int);
    lemma_textlets_distinct(m, m.links[e].dst as int, m.links[f].dst as int);
    assert(m.links[e].same_key(m.links[f]));
    if e < f {
        assert(!m.links[e].same_key(m.links[f]));
    } else if f < e {
        assert(!m.links[f].same_key(m.links[e]));
    }
}

/// A chain with more textlets and the same links has seen what it had
/// seen.
pub proof fn lemma_more_textlets_hits(m: ChainModel, more: ChainModel)
    requires
        m.valid(),
        more.links == m.links,
        more.textlets.len() >= m.textlets.len(),
        more.textlets.take(m.textlets.len() as int) == m.textlets,
    ensures
        forall|key: (Textlet, Textlet, Textlet)| #[trigger] hits_of(more, key) == hits_of(m, key),
{
    assert forall|e: int| 0 <= e < m.links.len() implies #[trigger] link_key(more, e) == link_key(m, e) by {
        let link = m.links[e];
        let len = m.textlets.len() as int;
        assert(more.textlets.take(len)[link.src as int] == more.textlets[link.src as int]);
        assert(more.textlets.take(len)[link.pct as int] == more.textlets[link.pct as int]);
        assert(more.textlets.take(len)[link.dst as int] == more.textlets[link.dst as int]);
    }
    assert forall|key: (Textlet, Textlet, Textlet)| #[trigger]
        hits_of(more, key) == hits_of(m, key) by {
        if exists|e: int| 0 <= e < m.links.len() && link_key(m, e) == key {
            let e = choose|e: int| 0 <= e < m.links.len() && link_key(m, e) == key;
            assert(link_key(more, e) == key);
            let f = choose|f: int| 0 <= f < more.links.len() && link_key(more, f) == key;
            assert(link_key(m, f) == key);
        } else if exists|f: int| 0 <= f < more.links.len() && link_key(more, f) == key {
            let f = choose|f: int| 0 <= f < more.links.len() && link_key(more, f) == key;
            assert(link_key(m, f) == key);
        }
    }
}

/// Registering counts what was seen once more, leaves every other count
/// as it was, and makes a link only for what had not been seen.
pub proof fn lemma_register_hits(m: ChainModel, src: nat, dst: nat, pct: nat)
    requires
        m.valid(),
        src < m.textlets.len(),
        dst < m.textlets.len(),
        2 <= pct < m.textlets.len(),
    ensures
        ({
            let seen = (m.textlets[src as int], m.textlets[pct as int], m.textlets[dst as int]);
            let after = m.register(src, dst, pct);
            &&& after.valid()
            &&& after.textlets == m.textlets
            &&& forall|key: (Textlet, Textlet, Textlet)| #[trigger]
                hits_of(after, key) == if key == seen {
                    bump(hits_of(m, key))
                } else {
                    hits_of(m, key)
                }
            &&& after.links.len() == m.links.len() + if hits_of(m, seen) == 0 {
                1nat
            } else {
                0nat
            }
        }),
{
    let seen = (m.textlets[src as int], m.textlets[pct as int], m.textlets[dst as int]);
    let after = m.register(src, dst, pct);
    let probe = Link { src, dst, pct, hits: 0 };
    lemma_register_valid(m, src, dst, pct);
    match m.link_of(src, dst, pct) {
        Some(at) => {
            let at = at as int;
            assert(m.links[at].same_key(probe));
            assert(link_key(m, at) == seen);
            lemma_hits_of_link(m, at);
            assert forall|e: int| 0 <= e < m.links.len() implies #[trigger] link_key(after, e)
                == link_key(m, e) by {}
            assert forall|key: (Textlet, Textlet, Textlet)| #[trigger]
                hits_of(after, key) == if key == seen {
                    bump(hits_of(m, key))
                } else {
                    hits_of(m, key)
                } by {
                if exists|e: int| 0 <= e < m.links.len() && link_key(m, e) == key {
                    let e = choose|e: int| 0 <= e < m.links.len() && link_key(m, e) == key;
                    lemma_hits_of_link(m, e);
                    assert(link_key(after, e) == key);
                    lemma_hits_of_link(after, e);
                    if key == seen {
                        lemma_hits_of_link(after, at);
                    }
                } else if exists|f: int| 0 <= f < after.links.len() && link_key(after, f) == key {
                    let f = choose|f: int| 0 <= f < after.links.len() && link_key(after, f) == key;
                    assert(link_key(m, f) == key);
                }
            }
        },
        None => {
            let last = m.links.len() as int;
            assert forall|e: int| 0 <= e < m.links.len() implies link_key(m, e) != seen by {
                if link_key(m, e) == seen {
                    lemma_textlets_distinct(m, m.links[e].src as int, src as int);
                    lemma_textlets_distinct(m, m.links[e].pct as int, pct as int);
                    lemma_textlets_distinct(m, m.links[e].dst as int, dst as int);
                    assert(m.links[e].same_key(probe));
                    assert((e as nat) < m.links.len());
                }
            }
            assert(hits_of(m, seen) == 0);
            assert(link_key(after, last) == seen);
            lemma_hits_of_link(after, last);
            assert forall|e: int| 0 <= e < m.links.len() implies #[trigger] link_key(after, e)
                == link_key(m, e) by {}
            assert forall|key: (Textlet, Textlet, Textlet)| #[trigger]
                hits_of(after, key) == if key == seen {
                    bump(hits_of(m, key))
                } else {
                    hits_of(m, key)
                } by {
                if key != seen {
                    if exists|e: int| 0 <= e < m.links.len() && link_key(m, e) == key {
                        let e = choose|e: int| 0 <= e < m.links.len() && link_key(m, e) == key;
                        lemma_hits_of_link(m, e);
                        assert(link_key(after, e) == key);
                        lemma_hits_of_link(after, e);
                    } else if exists|f: int|
                        0 <= f < after.links.len() && link_key(after, f) == key {
                        let f = choose|f: int|
                            0 <= f < after.links.len() && link_key(after, f) == key;
                        assert(f < last);
                        assert(link_key(m, f) == key);
                    }
                }
            }
        },
    }
}

/// Learning a triple counts what it says once more, leaves every other
/// count as it was, and makes a link only for what had not been seen.
pub proof fn lemma_absorb_hits(m: ChainModel, triple: (Lexeme, Lexeme, Lexeme))
    requires
        m.valid(),
        triple.1 is Punct,
    ensures
        m.absorb(triple).valid(),
        forall|key: (Textlet, Textlet, Textlet)| #[trigger]
            hits_of(m.absorb(triple), key) == if key == key_of(triple) {
                bump(hits_of(m, key))
            } else {
                hits_of(m, key)
            },
        m.absorb(triple).links.len() == m.links.len() + if hits_of(m, key_of(triple)) == 0 {
            1nat
        } else {
            0nat
        },
{
    let (with_src, src) = m.intern_token(triple.0);
    let (with_pct, pct) = with_src.intern_token(triple.1);
    let (with_dst, dst) = with_pct.intern_token(triple.2);
    lemma_intern_token(m, triple.0);
    lemma_intern_token(with_src, triple.1);
    lemma_intern_token(with_pct, triple.2);
    lemma_more_textlets_hits(m, with_src);
    lemma_more_textlets_hits(with_src, with_pct);
    lemma_more_textlets_hits(with_pct, with_dst);
    lemma_register_hits(with_dst, src, dst, pct);
    assert(with_dst.textlets[src as int] == textlet_of(triple.0)) by {
        assert(with_pct.textlets.take(with_src.textlets.len() as int)[src as int]
            == with_pct.textlets[src as int]);
        assert(with_dst.textlets.take(with_pct.textlets.len() as int)[src as int]
            == with_dst.textlets[src as int]);
    }
    assert(with_dst.textlets[pct as int] == textlet_of(triple.1)) by {
        assert(with_dst.textlets.take(with_pct.textlets.len() as int)[pct as int]
            == with_dst.textlets[pct as int]);
    }
    assert(with_dst.textlets[dst as int] == textlet_of(triple.2));
    assert forall|key: (Textlet, Textlet, Textlet)| #[trigger]
        hits_of(m.absorb(triple), key) == if key == key_of(triple) {
            bump(hits_of(m, key))
        } else {
            hits_of(m, key)
        } by {
        assert(hits_of(with_dst, key) == hits_of(with_pct, key));
        assert(hits_of(with_pct, key) == hits_of(with_src, key));
        assert(hits_of(with_src, key) == hits_of(m, key));
    }
    assert(hits_of(with_dst, key_of(triple)) == hits_of(with_pct, key_of(triple)));
    assert(hits_of(with_pct, key_of(triple)) == hits_of(with_src, key_of(triple)));
    assert(hits_of(with_src, key_of(triple)) == hits_of(m, key_of(triple)));
}

/// Whether `more` has every textlet of `m` at its id.
pub open spec fn keeps_textlets(m: ChainModel, more: ChainModel) -> bool {
    &&& more.textlets.len() >= m.textlets.len()
    &&& more.textlets.take(m.textlets.len() as int) == m.textlets
}

/// A chain that has every textlet of another at its id has every textlet
/// of a third that the other has at its id.
pub proof fn lemma_keeps_textlets_on(a: ChainModel, b: ChainModel, c: ChainModel)
    requires
        keeps_textlets(a, b),
        keeps_textlets(b, c),
    ensures
        keeps_textlets(a, c),
{
    assert forall|i: int| 0 <= i < a.textlets.len() implies c.textlets[i] == a.textlets[i] by {
        assert(b.textlets.take(a.textlets.len() as int)[i] == b.textlets[i]);
        assert(c.textlets.take(b.textlets.len() as int)[i] == c.textlets[i]);
    }
    assert(c.textlets.take(a.textlets.len() as int) =~= a.textlets);
}

/// A valid chain that has every textlet of another valid chain at its id
/// gives every word of the other the id that it had.
pub proof fn lemma_keeps_ids(m: ChainModel, more: ChainModel, word: Seq<char>)
    requires
        m.valid(),
        more.valid(),
        keeps_textlets(m, more),
        m.id_of(word) is Some,
    ensures
        more.id_of(word) == m.id_of(word),
{
    let id = m.id_of(word)->0;
    assert(id < m.textlets.len() && m.textlets[id as int] == Textlet::Text(word));
    assert(more.textlets.take(m.textlets.len() as int)[id as int] == more.textlets[id as int]);
    lemma_id_of(more, word, id);
}

/// Learning a token whose textlet the chain has changes nothing.
proof fn lemma_intern_known(m: ChainModel, token: Lexeme, id: int)
    requires
        m.valid(),
        0 <= id < m.textlets.len(),
        m.textlets[id] == textlet_of(token),
    ensures
        m.intern_token(token).0 == m,
{
    match token {
        Lexeme::Word(word) => {
            lemma_id_of(m, word, id as nat);
        },
        Lexeme::Punct(word) => {
            lemma_id_of(m, word, id as nat);
        },
        _ => {},
    }
}

/// Learning a triple keeps every textlet at its id, and adds no textlet
/// where what the triple says had been seen.
pub proof fn lemma_absorb_textlets(m: ChainModel, triple: (Lexeme, Lexeme, Lexeme))
    requires
        m.valid(),
        triple.1 is Punct,
    ensures
        keeps_textlets(m, m.absorb(triple)),
        hits_of(m, key_of(triple)) > 0 ==> m.absorb(triple).textlets == m.textlets,
{
    let (with_src, src) = m.intern_token(triple.0);
    let (with_pct, pct) = with_src.intern_token(triple.1);
    let (with_dst, dst) = with_pct.intern_token(triple.2);
    lemma_intern_token(m, triple.0);
    lemma_intern_token(with_src, triple.1);
    lemma_intern_token(with_pct, triple.2);
    lemma_keeps_textlets_on(m, with_src, with_pct);
    lemma_keeps_textlets_on(m, with_pct, with_dst);
    assert(m.absorb(triple).textlets == with_dst.textlets);
    if hits_of(m, key_of(triple)) > 0 {
        let key = key_of(triple);
        let e = choose|e: int| 0 <= e < m.links.len() && link_key(m, e) == key;
        let link = m.links[e];
        lemma_intern_known(m, triple.0, link.src as int);
        lemma_intern_known(m, triple.1, link.pct as int);
        lemma_intern_known(m, triple.2, link.dst as int);
    }
}

/// Learning triples counts what each of them says, up to what the machine
/// counts, and keeps every textlet at its id. No link is made and no
/// textlet is added where all that they say had been seen.
pub proof fn lemma_absorb_all_hits(m: ChainModel, ts: Seq<(Lexeme, Lexeme, Lexeme)>)
    requires
        m.valid(),
        forall|j: int| 0 <= j < ts.len() ==> (#[trigger] ts[j]).1 is Punct,
    ensures
        m.absorb_all(ts).valid(),
        forall|key: (Textlet, Textlet, Textlet)| #[trigger]
            hits_of(m.absorb_all(ts), key) == saturated(hits_of(m, key) + occurrences(ts, key)),
        m.absorb_all(ts).links.len() >= m.links.len(),
        keeps_textlets(m, m.absorb_all(ts)),
        (forall|j: int| 0 <= j < ts.len() ==> hits_of(m, key_of(#[trigger] ts[j])) > 0)
            ==> m.absorb_all(ts).links.len() == m.links.len() && m.absorb_all(ts).textlets
            == m.textlets,
    decreases ts.len(),
{
    assert(m.textlets.take(m.textlets.len() as int) =~= m.textlets);
    assert forall|key: (Textlet, Textlet, Textlet)| hits_of(m, key) <= usize::MAX by {
        if exists|e: int| 0 <= e < m.links.len() && link_key(m, e) == key {
            let e = choose|e: int| 0 <= e < m.links.len() && link_key(m, e) == key;
            assert(m.links[e].hits <= usize::MAX);
        }
    }
    if ts.len() > 0 {
        let front = ts.drop_last();
        let before = m.absorb_all(front);
        lemma_absorb_all_hits(m, front);
        lemma_absorb_hits(before, ts.last());
        lemma_absorb_textlets(before, ts.last());
        lemma_keeps_textlets_on(m, before, m.absorb_all(ts));
        assert forall|key: (Textlet, Textlet, Textlet)| #[trigger]
            hits_of(m.absorb_all(ts), key) == saturated(hits_of(m, key) + occurrences(ts, key)) by {
            assert(hits_of(before, key) == saturated(hits_of(m, key) + occurrences(front, key)));
        }
        if forall|j: int| 0 <= j < ts.len() ==> hits_of(m, key_of(#[trigger] ts[j])) > 0 {
            assert forall|j: int| 0 <= j < front.len() implies hits_of(
                m,
                key_of(#[trigger] front[j]),
            ) > 0 by {
                assert(front[j] == ts[j]);
            }
            let last = key_of(ts.last());
            assert(hits_of(m, key_of(ts[ts.len() - 1])) > 0);
            assert(hits_of(before, last) == saturated(hits_of(m, last) + occurrences(front, last)));
        }
    }
}

/// How often something occurs among triples is at least once where one of
/// the triples says it.
pub proof fn lemma_occurs(ts: Seq<(Lexeme, Lexeme, Lexeme)>, j: int)
    requires
        0 <= j < ts.len(),
    ensures
        occurrences(ts, key_of(ts[j])) >= 1,
    decreases ts.len(),
{
    if j < ts.len() - 1 {
        lemma_occurs(ts.drop_last(), j);
        assert(ts.drop_last()[j] == ts[j]);
    }
}

/// **Edge count.** A chain that learns a sentence `n` times over has the
/// textlets, and as many edges, as one that learns it once: learning it
/// again adds neither. The count of each thing seen grows by `n` times the
/// number of its occurrences in the sentence, up to what the machine
/// counts: in a new chain, an edge for what occurs once in the sentence
/// counts `n`.
pub proof fn lemma_parse_times(m: ChainModel, text: Seq<char>, n: nat)
    requires
        m.valid(),
        n >= 1,
    ensures
        parse_times(m, text, n).valid(),
        parse_times(m, text, n).links.len() == m.parse(text).links.len(),
        parse_times(m, text, n).textlets == m.parse(text).textlets,
        forall|key: (Textlet, Textlet, Textlet)| #[trigger]
            hits_of(parse_times(m, text, n), key) == saturated(
                hits_of(m, key) + n * occurrences(sentence_triples(text), key),
            ),
    decreases n,
{
    let ts = sentence_triples(text);
    if text.len() > 0 {
        lemma_triples_chained(text);
    }
    assert(parse_times(m, text, 0) == m);
    if n == 1 {
        lemma_absorb_all_hits(m, ts);
        assert(parse_times(m, text, 1) == m.parse(text));
        assert forall|key: (Textlet, Textlet, Textlet)| #[trigger]
            hits_of(parse_times(m, text, n), key) == saturated(
                hits_of(m, key) + n * occurrences(ts, key),
            ) by {
            assert(1 * occurrences(ts, key) == occurrences(ts, key));
        }
    } else {
        let less = (n - 1) as nat;
        let before = parse_times(m, text, less);
        lemma_parse_times(m, text, less);
        lemma_absorb_all_hits(before, ts);
        assert forall|j: int| 0 <= j < ts.len() implies hits_of(before, key_of(#[trigger] ts[j]))
            > 0 by {
            let key = key_of(ts[j]);
            lemma_occurs(ts, j);
            let occ = occurrences(ts, key);
            assert(hits_of(before, key) == saturated(hits_of(m, key) + less * occ));
            assert(less * occ >= 1) by (nonlinear_arith)
                requires
                    less >= 1,
                    occ >= 1,
            ;
        }
        assert forall|key: (Textlet, Textlet, Textlet)| #[trigger]
            hits_of(parse_times(m, text, n), key) == saturated(
                hits_of(m, key) + n * occurrences(ts, key),
            ) by {
            let occ = occurrences(ts, key);
            assert(hits_of(before, key) == saturated(hits_of(m, key) + less * occ));
            assert(n * occ == less * occ + occ) by (nonlinear_arith)
                requires
                    n == less + 1,
            ;
        }
    }
}

/// **Edge count, for what occurs once.** A chain that learns a sentence
/// `n` times over has as many edges as one that learns it once, and the
/// edge for what occurs once in the sentence, and was never seen before,
/// counts `n`.
pub proof fn lemma_edge_count(
    m: ChainModel,
    text: Seq<char>,
    n: nat,
    key: (Textlet, Textlet, Textlet),
)
    requires
        m.valid(),
        1 <= n <= usize::MAX,
        hits_of(m, key) == 0,
        occurrences(sentence_triples(text), key) == 1,
    ensures
        parse_times(m, text, n).links.len() == m.parse(text).links.len(),
        hits_of(parse_times(m, text, n), key) == n,
{
    lemma_parse_times(m, text, n);
    assert(n * 1 == n) by (nonlinear_arith);
}

/// **Ids stay.** Learning a sentence keeps every textlet at its id: a
/// word that had an id has the same id afterwards.
pub proof fn lemma_parse_keeps_ids(m: ChainModel, text: Seq<char>, word: Seq<char>)
    requires
        m.valid(),
    ensures
        m.parse(text).valid(),
        keeps_textlets(m, m.parse(text)),
        m.id_of(word) is Some ==> m.parse(text).id_of(word) == m.id_of(word),
{
    if text.len() > 0 {
        lemma_triples_chained(text);
    }
    lemma_absorb_all_hits(m, sentence_triples(text));
    if m.id_of(word) is Some {
        lemma_keeps_ids(m, m.parse(text), word);
    }
}

/// **Ids stay, however often a sentence is learned.** A word that had an
/// id has the same id after the sentence was learned `n` times over.
pub proof fn lemma_parse_times_keeps_ids(m: ChainModel, text: Seq<char>, n: nat, word: Seq<char>)
    requires
        m.valid(),
        m.id_of(word) is Some,
    ensures
        parse_times(m, text, n).valid(),
        keeps_textlets(m, parse_times(m, text, n)),
        parse_times(m, text, n).id_of(word) == m.id_of(word),
    decreases n,
{
    if n == 0 {
        assert(m.textlets.take(m.textlets.len() as int) =~= m.textlets);
    } else {
        let before = parse_times(m, text, (n - 1) as nat);
        lemma_parse_times_keeps_ids(m, text, (n - 1) as nat, word);
        lemma_parse_keeps_ids(before, text, word);
        lemma_keeps_textlets_on(m, before, before.parse(text));
    }
}

/// **Interning.** Asking twice for the id of a word gives the same id, and
/// changes nothing the second time; two different words never get the
/// same id; and a word keeps its id when another word is given one.
pub proof fn lemma_interning_stable(m: ChainModel, a: Seq<char>, b: Seq<char>)
    requires
        m.valid(),
    ensures
        m.intern(a).0.intern(a) == m.intern(a),
        a != b ==> m.intern(a).0.intern(b).1 != m.intern(a).1,
        m.intern(a).0.intern(b).0.intern(a).1 == m.intern(a).1,
{
    let (first, id_a) = m.intern(a);
    lemma_intern(m, a);
    let (second, id_b) = first.intern(b);
    lemma_intern(first, b);
    assert(second.textlets.take(first.textlets.len() as int)[id_a as int] == second.textlets[id_a as int]);
    lemma_id_of(second, a, id_a);
    if a != b && id_a == id_b {
        assert(second.textlets[id_a as int] == Textlet::Text(a));
        assert(second.textlets[id_b as int] == Textlet::Text(b));
    }
}

/// The sum of the counts of the links.
pub open spec fn total_hits(links: Seq<Link>) -> nat
    decreases links.len(),
{
    if links.len() == 0 {
        0
    } else {
        total_hits(links.drop_last()) + links.last().hits
    }
}

/// No count is above the sum of the counts, and a link replaced changes
/// the sum by what its count changes.
proof fn lemma_total_hits_update(links: Seq<Link>, e: int, link: Link)
    requires
        0 <= e < links.len(),
    ensures
        links[e].hits <= total_hits(links),
        total_hits(links.update(e, link)) == total_hits(links) - links[e].hits + link.hits,
    decreases links.len(),
{
    let updated = links.update(e, link);
    if e == links.len() - 1 {
        assert(updated.drop_last() =~= links.drop_last());
    } else {
        lemma_total_hits_update(links.drop_last(), e, link);
        assert(updated.drop_last() =~= links.drop_last().update(e, link));
    }
}

/// Registering adds one to the sum of the counts, where the sum is below
/// the highest count that the machine holds.
proof fn lemma_register_total(m: ChainModel, src: nat, dst: nat, pct: nat)
    requires
        total_hits(m.links) < usize::MAX,
    ensures
        total_hits(m.register(src, dst, pct).links) == total_hits(m.links) + 1,
{
    match m.link_of(src, dst, pct) {
        Some(e) => {
            let link = m.links[e as int];
            lemma_total_hits_update(
                m.links,
                e as int,
                Link { src, dst, pct, hits: bump(link.hits) },
            );
        },
        None => {
            let link = Link { src, dst, pct, hits: 1 };
            assert(m.links.push(link).drop_last() =~= m.links);
        },
    }
}

/// Learning triples adds their number to the sum of the counts, where the
/// machine can count that far.
pub proof fn lemma_absorb_all_total(m: ChainModel, ts: Seq<(Lexeme, Lexeme, Lexeme)>)
    requires
        total_hits(m.links) + ts.len() <= usize::MAX,
    ensures
        total_hits(m.absorb_all(ts).links) == total_hits(m.links) + ts.len(),
    decreases ts.len(),
{
    if ts.len() > 0 {
        let before = m.absorb_all(ts.drop_last());
        lemma_absorb_all_total(m, ts.drop_last());
        let triple = ts.last();
        let (with_src, src) = before.intern_token(triple.0);
        let (with_pct, pct) = with_src.intern_token(triple.1);
        let (with_dst, dst) = with_pct.intern_token(triple.2);
        assert(with_dst.links == before.links);
        lemma_register_total(with_dst, src, dst, pct);
    }
}

/// **Sum of the counts.** Each time a sentence is learned, the counts of
/// all edges together grow by the number of its triples, which is one more
/// than the number of its words; after `n` times they have grown by `n`
/// times that number, where the machine can count that far.
pub proof fn lemma_parse_times_total(m: ChainModel, text: Seq<char>, n: nat)
    requires
        total_hits(m.links) + n * sentence_triples(text).len() <= usize::MAX,
    ensures
        total_hits(parse_times(m, text, n).links) == total_hits(m.links) + n * sentence_triples(
            text,
        ).len(),
        text.len() > 0 ==> sentence_triples(text).len() == words_in(tokenize(text)).len() + 1,
    decreases n,
{
    let len = sentence_triples(text).len();
    if n > 0 {
        let less = (n - 1) as nat;
        assert(n * len == less * len + len) by (nonlinear_arith)
            requires
                n == less + 1,
        ;
        assert(less * len >= 0) by (nonlinear_arith);
        lemma_parse_times_total(m, text, less);
        lemma_absorb_all_total(parse_times(m, text, less), sentence_triples(text));
    } else {
        assert(0 * len == 0) by (nonlinear_arith);
    }
    if text.len() > 0 {
        lemma_triples_count(text);
    }
}

/// The words among the first `k` tokens of a sentence are half as many as
/// the tokens before the last of them, rounded down.
proof fn lemma_words_among(s: Seq<char>, k: int)
    requires
        1 <= k <= tokenize(s).len(),
    ensures
        words_in(tokenize(s).take(k)).len() == if k == tokenize(s).len() {
            (k - 2) / 2
        } else {
            (k - 1) / 2
        },
    decreases k,
{
    lemma_tokenize_alternates(s);
    let tokens = tokenize(s);
    let front = tokens.take(k);
    assert(front.drop_last() =~= tokens.take(k - 1));
    assert(front.last() == tokens[k - 1]);
    if k == 1 {
        assert(tokens.take(0) =~= Seq::<Lexeme>::empty());
        assert(words_in(tokens.take(0)).len() == 0);
    } else {
        lemma_words_among(s, k - 1);
        if k - 1 < tokens.len() - 1 {
            if (k - 1) % 2 == 1 {
                assert(tokens[k - 1] is Punct);
            } else {
                assert(tokens[k - 1] is Word);
            }
        }
    }
}

/// A sentence that is not empty is learned by one triple more than it has
/// words.
pub proof fn lemma_triples_count(text: Seq<char>)
    requires
        text.len() > 0,
    ensures
        sentence_triples(text).len() == words_in(tokenize(text)).len() + 1,
{
    lemma_triples_chained(text);
    let tokens = tokenize(text);
    lemma_words_among(text, tokens.len() as int);
    assert(tokens.take(tokens.len() as int) =~= tokens);
}

} // verus!
