use vstd::prelude::*;
use vstd::set_lib::{lemma_int_range, lemma_len_subset, set_int_range};

use crate::models::{
    cards_view, index_view, CardInDeck, CardInDeckModel, Deck, DeckModel, IndexedCard,
    IndexedCardModel,
};

verus! {

/// Why the deck store refused an operation.
#[derive(Clone, Copy, Debug, PartialEq, Eq, Structural)]
pub enum StoreError {
    /// No completed resolution was at hand to make a deck of.
    MissingResolution,
    /// The identity is already used by another deck.
    DuplicateId,
    /// A card's count at hand is negative or above its target.
    InvalidCounts,
}

pub open spec fn store_view(decks: Seq<(u128, Deck)>) -> Seq<(u128, DeckModel)> {
    decks.map_values(|e: (u128, Deck)| (e.0, e.1@))
}

pub open spec fn ids_unique(decks: Seq<(u128, DeckModel)>) -> bool {
    forall|i: int, j: int|
        0 <= i < decks.len() && 0 <= j < decks.len() && i != j ==> #[trigger] decks[i].0
            != #[trigger] decks[j].0
}

pub open spec fn decks_wf(decks: Seq<(u128, DeckModel)>) -> bool {
    forall|i: int| 0 <= i < decks.len() ==> (#[trigger] decks[i]).1.wf()
}

/// What the store accepts as its whole contents.
pub open spec fn importable(decks: Seq<(u128, DeckModel)>) -> bool {
    ids_unique(decks) && decks_wf(decks)
}

pub open spec fn has_id(decks: Seq<(u128, DeckModel)>, id: u128) -> bool {
    exists|i: int| 0 <= i < decks.len() && (#[trigger] decks[i]).0 == id
}

/// The index entries of one deck: one per card, in the deck's order.
pub open spec fn deck_index(id: u128, cards: Seq<CardInDeckModel>) -> Seq<IndexedCardModel> {
    cards.map_values(
        |c: CardInDeckModel| IndexedCardModel { name: c.card.name, img: c.card.img, deck_id: id },
    )
}

/// The index entries of all decks, deck after deck.
pub open spec fn full_index(decks: Seq<(u128, DeckModel)>) -> Seq<IndexedCardModel>
    decreases decks.len(),
{
    if decks.len() == 0 {
        seq![]
    } else {
        full_index(decks.drop_last()) + deck_index(decks.last().0, decks.last().1.cards)
    }
}

pub open spec fn keep_entry(id: u128) -> spec_fn(IndexedCardModel) -> bool {
    |e: IndexedCardModel| e.deck_id != id
}

pub open spec fn keep_deck(id: u128) -> spec_fn((u128, DeckModel)) -> bool {
    |d: (u128, DeckModel)| d.0 != id
}

/// The card after one step up (`increment`) or down, held within `[0, quantity]`.
pub open spec fn adjust_card(c: CardInDeckModel, increment: bool) -> CardInDeckModel {
    if increment && c.current_quantity < c.quantity {
        CardInDeckModel { current_quantity: c.current_quantity + 1, ..c }
    } else if !increment && c.current_quantity > 0 {
        CardInDeckModel { current_quantity: c.current_quantity - 1, ..c }
    } else {
        c
    }
}

pub open spec fn adjust_cards(cards: Seq<CardInDeckModel>, name: Seq<char>, increment: bool) -> Seq<
    CardInDeckModel,
> {
    cards.map_values(
        |c: CardInDeckModel|
            if c.card.name == name {
                adjust_card(c, increment)
            } else {
                c
            },
    )
}

pub open spec fn adjust_store(
    decks: Seq<(u128, DeckModel)>,
    id: u128,
    name: Seq<char>,
    increment: bool,
) -> Seq<(u128, DeckModel)> {
    decks.map_values(
        |d: (u128, DeckModel)|
            if d.0 == id {
                (d.0, DeckModel { name: d.1.name, cards: adjust_cards(d.1.cards, name, increment) })
            } else {
                d
            },
    )
}

/// Builds the index entries of one deck's cards.
pub fn build_card_index(deck_id: u128, cards: &Vec<CardInDeck>) -> (r: Vec<IndexedCard>)
    ensures
        index_view(r@) == deck_index(deck_id, cards_view(cards@)),
{
    let mut r: Vec<IndexedCard> = Vec::new();
    let mut i: usize = 0;
    while i < cards.len()
        invariant
            i <= cards@.len(),
            r@.len() == i,
            forall|k: int|
                0 <= k < i ==> (#[trigger] r@[k])@ == (IndexedCardModel {
                    name: cards@[k].card.name@,
                    img: cards@[k].card.img@,
                    deck_id,
                }),
        decreases cards@.len() - i,
    {
        let c = &cards[i];
        r.push(IndexedCard { name: c.card.name.clone(), img: c.card.img.clone(), deck_id });
        i += 1;
    }
    assert(index_view(r@) =~= deck_index(deck_id, cards_view(cards@)));
    r
}

proof fn lemma_filter_deck_index(x: u128, cards: Seq<CardInDeckModel>, id: u128)
    ensures
        deck_index(x, cards).filter(keep_entry(id)) == if x == id {
            Seq::<IndexedCardModel>::empty()
        } else {
            deck_index(x, cards)
        },
    decreases cards.len(),
{
    reveal(Seq::filter);
    if cards.len() > 0 {
        lemma_filter_deck_index(x, cards.drop_last(), id);
        assert(deck_index(x, cards).drop_last() =~= deck_index(x, cards.drop_last()));
        if x != id {
            assert(deck_index(x, cards.drop_last()).push(deck_index(x, cards).last()) =~= deck_index(
                x,
                cards,
            ));
        }
    } else {
        assert(deck_index(x, cards) =~= Seq::<IndexedCardModel>::empty());
    }
}

/// The index of the decks that remain is the old index without the removed deck's entries.
proof fn lemma_full_index_filter(decks: Seq<(u128, DeckModel)>, id: u128)
    ensures
        full_index(decks.filter(keep_deck(id))) == full_index(decks).filter(keep_entry(id)),
    decreases decks.len(),
{
    reveal(Seq::filter);
    if decks.len() > 0 {
        let rest = decks.drop_last();
        let last = decks.last();
        lemma_full_index_filter(rest, id);
        Seq::filter_distributes_over_add(
            full_index(rest),
            deck_index(last.0, last.1.cards),
            keep_entry(id),
        );
        lemma_filter_deck_index(last.0, last.1.cards, id);
        if last.0 != id {
            let f = rest.filter(keep_deck(id)).push(last);
            assert(f.drop_last() =~= rest.filter(keep_deck(id)));
        } else {
            assert(full_index(rest).filter(keep_entry(id)) + Seq::<IndexedCardModel>::empty()
                =~= full_index(rest).filter(keep_entry(id)));
        }
    } else {
        assert(full_index(decks) =~= Seq::<IndexedCardModel>::empty());
    }
}

proof fn lemma_full_index_push(decks: Seq<(u128, DeckModel)>, d: (u128, DeckModel))
    ensures
        full_index(decks.push(d)) == full_index(decks) + deck_index(d.0, d.1.cards),
{
    assert(decks.push(d).drop_last() =~= decks);
}

proof fn lemma_importable_prefix(decks: Seq<(u128, DeckModel)>)
    requires
        decks.len() > 0,
        importable(decks),
    ensures
        importable(decks.drop_last()),
        forall|i: int| 0 <= i < decks.len() - 1 ==> (#[trigger] decks[i]).0 != decks.last().0,
{
    let rest = decks.drop_last();
    assert forall|i: int, j: int|
        0 <= i < rest.len() && 0 <= j < rest.len() && i != j implies #[trigger] rest[i].0
        != #[trigger] rest[j].0 by {
        assert(rest[i] == decks[i] && rest[j] == decks[j]);
    }
    assert forall|i: int| 0 <= i < rest.len() implies (#[trigger] rest[i]).1.wf() by {
        assert(rest[i] == decks[i]);
    }
    assert forall|i: int| 0 <= i < decks.len() - 1 implies (#[trigger] decks[i]).0
        != decks.last().0 by {
        assert(decks[i].0 != decks[decks.len() - 1].0);
    }
}

/// Removing decks keeps the identities unique and the counts within their targets.
proof fn lemma_filter_importable(decks: Seq<(u128, DeckModel)>, id: u128)
    requires
        importable(decks),
    ensures
        importable(decks.filter(keep_deck(id))),
    decreases decks.len(),
{
    reveal(Seq::filter);
    if decks.len() > 0 {
        let rest = decks.drop_last();
        let last = decks.last();
        lemma_importable_prefix(decks);
        lemma_filter_importable(rest, id);
        let fr = rest.filter(keep_deck(id));
        if last.0 != id {
            let f = fr.push(last);
            assert forall|a: int| 0 <= a < fr.len() implies (#[trigger] fr[a]).0 != last.0 by {
                assert(fr.contains(fr[a]));
                rest.lemma_filter_contains_rev(keep_deck(id), fr[a]);
                let j = choose|j: int| 0 <= j < rest.len() && rest[j] == fr[a];
                assert(decks[j] == rest[j]);
            }
            assert forall|a: int, b: int|
                0 <= a < f.len() && 0 <= b < f.len() && a != b implies #[trigger] f[a].0
                != #[trigger] f[b].0 by {
                if a < fr.len() && b < fr.len() {
                    assert(f[a] == fr[a] && f[b] == fr[b]);
                } else if a < fr.len() {
                    assert(f[a] == fr[a]);
                } else {
                    assert(f[b] == fr[b]);
                }
            }
            assert forall|a: int| 0 <= a < f.len() implies (#[trigger] f[a]).1.wf() by {
                if a < fr.len() {
                    assert(f[a] == fr[a]);
                } else {
                    assert(decks[decks.len() - 1].1.wf());
                }
            }
        }
    }
}

pub open spec fn id_values(decks: Seq<(u128, DeckModel)>) -> Seq<int> {
    decks.map_values(|d: (u128, DeckModel)| d.0 as int)
}

/// Where every identity below `c` is taken, there are at least `c` decks.
proof fn lemma_taken_ids_bound(decks: Seq<(u128, DeckModel)>, c: int)
    requires
        0 <= c,
        forall|v: int| 0 <= v < c ==> has_id(decks, #[trigger] (v as u128)),
        c <= u128::MAX + 1,
    ensures
        c <= decks.len(),
{
    let ids = id_values(decks);
    let taken = ids.to_set();
    let range = set_int_range(0, c);
    lemma_int_range(0, c);
    ids.lemma_cardinality_of_set();
    assert(taken.finite()) by {
        vstd::seq_lib::seq_to_set_is_finite(ids);
    }
    assert forall|v: int| range.contains(v) implies taken.contains(v) by {
        assert(has_id(decks, v as u128));
        let i = choose|i: int| 0 <= i < decks.len() && (#[trigger] decks[i]).0 == v as u128;
        assert(ids[i] == v);
        assert(ids.contains(v));
    }
    lemma_len_subset(range, taken);
}

/// All decks, by identity, and the searchable index of their cards.
pub struct DeckStore {
    decks: Vec<(u128, Deck)>,
    index: Vec<IndexedCard>,
}

/// Relies on uuid::Uuid::new_v4: a random identity; nothing is promised of it.
#[verifier::external_body]
fn new_deck_id() -> (r: u128) {
    uuid::Uuid::new_v4().as_u128()
}

impl DeckStore {
    /// The decks, in the order in which they were added.
    pub closed spec fn model(&self) -> Seq<(u128, DeckModel)> {
        store_view(self.decks@)
    }

    /// The card index.
    pub closed spec fn index_model(&self) -> Seq<IndexedCardModel> {
        index_view(self.index@)
    }

    /// Identities are unique, every card's count at hand lies within its target, and the
    /// index holds exactly the entries of the decks' cards, deck after deck.
    pub closed spec fn wf(&self) -> bool {
        importable(self.model()) && self.index_model() == full_index(self.model())
    }

    pub fn new() -> (r: DeckStore)
        ensures
            r.wf(),
            r.model() == Seq::<(u128, DeckModel)>::empty(),
            r.index_model() == Seq::<IndexedCardModel>::empty(),
    {
        let r = DeckStore { decks: Vec::new(), index: Vec::new() };
        assert(r.model() =~= Seq::<(u128, DeckModel)>::empty());
        assert(r.index_model() =~= Seq::<IndexedCardModel>::empty());
        r
    }

    /// The decks, by identity, in the order in which they were added.
    pub fn decks(&self) -> (r: &Vec<(u128, Deck)>)
        ensures
            store_view(r@) == self.model(),
    {
        &self.decks
    }

    /// The card index.
    pub fn card_index(&self) -> (r: &Vec<IndexedCard>)
        ensures
            index_view(r@) == self.index_model(),
    {
        &self.index
    }

    /// Whether a deck has the identity.
    pub fn contains(&self, id: u128) -> (r: bool)
        ensures
            r == has_id(self.model(), id),
    {
        let mut i: usize = 0;
        while i < self.decks.len()
            invariant
                i <= self.decks@.len(),
                forall|k: int| 0 <= k < i ==> (#[trigger] self.model()[k]).0 != id,
            decreases self.decks@.len() - i,
        {
            if self.decks[i].0 == id {
                assert(self.model()[i as int].0 == id);
                return true;
            }
            i += 1;
        }
        false
    }

    /// The deck with the identity, if there is one.
    pub fn get_deck(&self, id: u128) -> (r: Option<&Deck>)
        requires
            self.wf(),
        ensures
            r is Some <==> has_id(self.model(), id),
            r matches Some(d) ==> exists|i: int|
                0 <= i < self.model().len() && self.model()[i] == (id, d@),
    {
        let mut i: usize = 0;
        while i < self.decks.len()
            invariant
                i <= self.decks@.len(),
                forall|k: int| 0 <= k < i ==> (#[trigger] self.model()[k]).0 != id,
            decreases self.decks@.len() - i,
        {
            if self.decks[i].0 == id {
                assert(self.model()[i as int] == (id, self.decks@[i as int].1@));
                return Some(&self.decks[i].1);
            }
            i += 1;
        }
        None
    }

    /// Adds a deck under the identity, with its cards' entries at the end of the index.
    pub fn insert_deck(&mut self, id: u128, name: String, cards: Vec<CardInDeck>) -> (r: Result<
        (),
        StoreError,
    >)
        requires
            old(self).wf(),
            forall|i: int| 0 <= i < cards@.len() ==> (#[trigger] cards@[i]).wf(),
        ensures
            final(self).wf(),
            r is Err <==> has_id(old(self).model(), id),
            r is Err ==> r == Err::<(), StoreError>(StoreError::DuplicateId) && final(self).model()
                == old(self).model() && final(self).index_model() == old(self).index_model(),
            r is Ok ==> final(self).model() == old(self).model().push(
                (id, DeckModel { name: name@, cards: cards_view(cards@) }),
            ) && final(self).index_model() == old(self).index_model() + deck_index(
                id,
                cards_view(cards@),
            ),
    {
        if self.contains(id) {
            return Err(StoreError::DuplicateId);
        }
        let ghost m0 = self.model();
        let ghost d = (id, DeckModel { name: name@, cards: cards_view(cards@) });
        let entries = build_card_index(id, &cards);
        let ghost iv = self.index_model();
        let mut k: usize = 0;
        while k < entries.len()
            invariant
                k <= entries@.len(),
                self.decks@ == old(self).decks@,
                index_view(self.index@) == iv + index_view(entries@).take(k as int),
            decreases entries@.len() - k,
        {
            let ghost before = index_view(self.index@);
            self.index.push(entries[k].duplicate());
            k += 1;
            assert(index_view(self.index@) =~= before.push(entries@[k - 1]@));
            assert(index_view(entries@).take(k as int) =~= index_view(entries@).take(k - 1).push(
                entries@[k - 1]@,
            ));
        }
        assert(index_view(entries@).take(k as int) =~= index_view(entries@));
        self.decks.push((id, Deck { name, cards }));
        proof {
            assert(self.model() =~= m0.push(d));
            lemma_full_index_push(m0, d);
            assert forall|i: int, j: int|
                0 <= i < self.model().len() && 0 <= j < self.model().len() && i != j implies #[trigger] self.model()[i].0
                != #[trigger] self.model()[j].0 by {
                if i < m0.len() && j < m0.len() {
                    assert(self.model()[i] == m0[i] && self.model()[j] == m0[j]);
                } else if i < m0.len() {
                    assert(self.model()[i] == m0[i]);
                } else if j < m0.len() {
                    assert(self.model()[j] == m0[j]);
                }
            }
            assert forall|i: int| 0 <= i < self.model().len() implies (#[trigger] self.model()[i]).1.wf() by {
                if i < m0.len() {
                    assert(self.model()[i] == m0[i]);
                } else {
                    assert forall|c: int| 0 <= c < d.1.cards.len() implies (#[trigger] d.1.cards[c]).wf() by {
                        assert(cards@[c].wf());
                    }
                }
            }
        }
        Ok(())
    }

    /// The least identity that no deck has.
    fn unused_id(&self) -> (r: u128)
        ensures
            !has_id(self.model(), r),
    {
        let mut c: u128 = 0;
        while self.contains(c)
            invariant
                forall|v: int| 0 <= v < c ==> has_id(self.model(), #[trigger] (v as u128)),
                c <= self.decks@.len(),
                self.model().len() == self.decks@.len(),
            decreases self.decks@.len() - c,
        {
            let n = self.decks.len();
            proof {
                assert forall|v: int| 0 <= v < c + 1 implies has_id(self.model(), #[trigger] (v as u128)) by {
                    if v == c {
                        assert(v as u128 == c);
                    }
                }
                lemma_taken_ids_bound(self.model(), c + 1);
                assert(c + 1 <= n);
            }
            c = c + 1;
        }
        c
    }

    /// Makes a deck of a completed resolution under a fresh identity: a random one, or
    /// where that one is taken, the least one that is free.
    pub fn create_deck(&mut self, name: String, resolved: Option<Vec<CardInDeck>>) -> (r: Result<
        u128,
        StoreError,
    >)
        requires
            old(self).wf(),
            resolved matches Some(cards) ==> forall|i: int|
                0 <= i < cards@.len() ==> (#[trigger] cards@[i]).wf(),
        ensures
            final(self).wf(),
            resolved is None ==> r == Err::<u128, StoreError>(StoreError::MissingResolution),
            resolved is Some ==> r is Ok,
            r is Err ==> final(self).model() == old(self).model() && final(self).index_model()
                == old(self).index_model(),
            r matches Ok(id) ==> resolved is Some && !has_id(old(self).model(), id)
                && final(self).model() == old(self).model().push(
                (id, DeckModel { name: name@, cards: cards_view(resolved->Some_0@) }),
            ) && final(self).index_model() == old(self).index_model() + deck_index(
                id,
                cards_view(resolved->Some_0@),
            ),
    {
        match resolved {
            None => Err(StoreError::MissingResolution),
            Some(cards) => {
                let drawn = new_deck_id();
                let id = if self.contains(drawn) {
                    self.unused_id()
                } else {
                    drawn
                };
                match self.insert_deck(id, name, cards) {
                    Ok(()) => Ok(id),
                    Err(e) => Err(e),
                }
            },
        }
    }

    /// Removes the deck with the identity, if there is one, and its entries of the index.
    pub fn delete_deck(&mut self, id: u128)
        requires
            old(self).wf(),
        ensures
            final(self).wf(),
            final(self).model() == old(self).model().filter(keep_deck(id)),
            final(self).index_model() == old(self).index_model().filter(keep_entry(id)),
    {
        let ghost m0 = self.model();
        let ghost i0 = self.index_model();
        let mut decks: Vec<(u128, Deck)> = Vec::new();
        let mut i: usize = 0;
        proof {
            assert(m0.take(0) =~= Seq::<(u128, DeckModel)>::empty());
            assert(store_view(decks@) =~= Seq::<(u128, DeckModel)>::empty());
        }
        while i < self.decks.len()
            invariant
                i <= self.decks@.len(),
                m0 == store_view(self.decks@),
                store_view(decks@) == m0.take(i as int).filter(keep_deck(id)),
            decreases self.decks@.len() - i,
        {
            let ghost before = store_view(decks@);
            proof {
                reveal(Seq::filter);
                assert(m0.take(i + 1).drop_last() =~= m0.take(i as int));
                assert(m0.take(i + 1).last() == m0[i as int]);
            }
            if self.decks[i].0 != id {
                let d = self.decks[i].1.duplicate();
                decks.push((self.decks[i].0, d));
                assert(store_view(decks@) =~= before.push(m0[i as int]));
            }
            i += 1;
        }
        assert(m0.take(i as int) =~= m0);
        let mut index: Vec<IndexedCard> = Vec::new();
        let mut j: usize = 0;
        proof {
            assert(i0.take(0) =~= Seq::<IndexedCardModel>::empty());
            assert(index_view(index@) =~= Seq::<IndexedCardModel>::empty());
        }
        while j < self.index.len()
            invariant
                j <= self.index@.len(),
                i0 == index_view(self.index@),
                index_view(index@) == i0.take(j as int).filter(keep_entry(id)),
            decreases self.index@.len() - j,
        {
            let ghost before = index_view(index@);
            proof {
                reveal(Seq::filter);
                assert(i0.take(j + 1).drop_last() =~= i0.take(j as int));
                assert(i0.take(j + 1).last() == i0[j as int]);
            }
            if self.index[j].deck_id != id {
                index.push(self.index[j].duplicate());
                assert(index_view(index@) =~= before.push(i0[j as int]));
            }
            j += 1;
        }
        assert(i0.take(j as int) =~= i0);
        self.decks = decks;
        self.index = index;
        proof {
            lemma_full_index_filter(m0, id);
            lemma_filter_importable(m0, id);
        }
    }

    /// Where the deck with the identity stands, if there is one.
    fn position(&self, id: u128) -> (r: Option<usize>)
        ensures
            r matches Some(i) ==> i < self.decks@.len() && self.model()[i as int].0 == id,
            r is None ==> !has_id(self.model(), id),
    {
        let mut i: usize = 0;
        while i < self.decks.len()
            invariant
                i <= self.decks@.len(),
                forall|k: int| 0 <= k < i ==> (#[trigger] self.model()[k]).0 != id,
            decreases self.decks@.len() - i,
        {
            if self.decks[i].0 == id {
                return Some(i);
            }
            i += 1;
        }
        None
    }

    /// Steps the count at hand of each card of the deck that has the name one up
    /// (`increment`) or one down; a step past zero or past the target does nothing.
    pub fn adjust_quantity(&mut self, deck_id: u128, card_name: &String, increment: bool)
        requires
            old(self).wf(),
        ensures
            final(self).wf(),
            final(self).model() == adjust_store(old(self).model(), deck_id, card_name@, increment),
            final(self).index_model() == old(self).index_model(),
    {
        let ghost m0 = self.model();
        match self.position(deck_id) {
            None => {
                assert(adjust_store(m0, deck_id, card_name@, increment) =~= m0);
            },
            Some(p) => {
                let ghost old_cards = cards_view(self.decks@[p as int].1.cards@);
                let ghost target = adjust_cards(old_cards, card_name@, increment);
                let mut cards: Vec<CardInDeck> = Vec::new();
                let mut j: usize = 0;
                while j < self.decks[p].1.cards.len()
                    invariant
                        p < self.decks@.len(),
                        old_cards == cards_view(self.decks@[p as int].1.cards@),
                        target == adjust_cards(old_cards, card_name@, increment),
                        j <= old_cards.len(),
                        cards@.len() == j,
                        forall|k: int| 0 <= k < j ==> (#[trigger] cards@[k])@ == target[k],
                    decreases old_cards.len() - j,
                {
                    let c = &self.decks[p].1.cards[j];
                    let mut nc = c.duplicate();
                    if c.card.name.eq(card_name) {
                        if increment {
                            if nc.current_quantity < nc.quantity {
                                nc.current_quantity = nc.current_quantity + 1;
                            }
                        } else if nc.current_quantity > 0 {
                            nc.current_quantity = nc.current_quantity - 1;
                        }
                    }
                    cards.push(nc);
                    j += 1;
                }
                assert(cards_view(cards@) =~= target);
                let name = self.decks[p].1.name.clone();
                self.decks.set(p, (deck_id, Deck { name, cards }));
                proof {
                    let m1 = self.model();
                    let want = adjust_store(m0, deck_id, card_name@, increment);
                    assert forall|k: int| 0 <= k < m1.len() implies #[trigger] m1[k] == want[k] by {
                        if k != p {
                            assert(m0[k].0 != m0[p as int].0);
                        }
                    }
                    assert(m1 =~= want);
                    lemma_adjust_keeps_importable(m0, deck_id, card_name@, increment);
                    lemma_adjust_keeps_index(m0, deck_id, card_name@, increment);
                }
            },
        }
    }

    /// Whether identities are unique among the entries.
    fn ids_distinct(entries: &Vec<(u128, Deck)>) -> (r: bool)
        ensures
            r == ids_unique(store_view(entries@)),
    {
        let ghost m = store_view(entries@);
        let mut i: usize = 0;
        while i < entries.len()
            invariant
                i <= entries@.len(),
                m == store_view(entries@),
                forall|a: int, b: int|
                    0 <= a < i && 0 <= b < i && a != b ==> #[trigger] m[a].0 != #[trigger] m[b].0,
            decreases entries@.len() - i,
        {
            let mut j: usize = 0;
            while j < i
                invariant
                    j <= i < entries@.len(),
                    m == store_view(entries@),
                    forall|b: int| 0 <= b < j ==> #[trigger] m[b].0 != m[i as int].0,
                decreases i - j,
            {
                if entries[j].0 == entries[i].0 {
                    assert(m[j as int].0 == m[i as int].0);
                    return false;
                }
                j += 1;
            }
            i += 1;
            assert forall|a: int, b: int|
                0 <= a < i && 0 <= b < i && a != b implies #[trigger] m[a].0 != #[trigger] m[b].0 by {
                if a == i - 1 {
                    assert(m[b].0 != m[a].0);
                } else if b == i - 1 {
                    assert(m[a].0 != m[b].0);
                }
            }
        }
        true
    }

    /// Whether every card of every entry has its count at hand within its target.
    fn counts_valid(entries: &Vec<(u128, Deck)>) -> (r: bool)
        ensures
            r == decks_wf(store_view(entries@)),
    {
        let ghost m = store_view(entries@);
        let mut i: usize = 0;
        while i < entries.len()
            invariant
                i <= entries@.len(),
                m == store_view(entries@),
                forall|a: int| 0 <= a < i ==> (#[trigger] m[a]).1.wf(),
            decreases entries@.len() - i,
        {
            let cards = &entries[i].1.cards;
            let mut j: usize = 0;
            while j < cards.len()
                invariant
                    i < entries@.len(),
                    cards == &entries@[i as int].1.cards,
                    m == store_view(entries@),
                    j <= cards@.len(),
                    forall|c: int| 0 <= c < j ==> (#[trigger] m[i as int].1.cards[c]).wf(),
                decreases cards@.len() - j,
            {
                let c = &cards[j];
                if c.current_quantity < 0 || c.current_quantity > c.quantity {
                    assert(!m[i as int].1.cards[j as int].wf());
                    return false;
                }
                j += 1;
            }
            i += 1;
        }
        true
    }

    /// Builds a store from exported entries: the decks in the order given, and their
    /// index. Refused where two entries share an identity, or else where a card's count at
    /// hand lies outside its target.
    pub fn import_decks(entries: &Vec<(u128, Deck)>) -> (r: Result<DeckStore, StoreError>)
        ensures
            r is Ok <==> importable(store_view(entries@)),
            r matches Ok(s) ==> s.wf() && s.model() == store_view(entries@),
            r == Err::<DeckStore, StoreError>(StoreError::DuplicateId) <==> !ids_unique(
                store_view(entries@),
            ),
            r == Err::<DeckStore, StoreError>(StoreError::InvalidCounts) <==> ids_unique(
                store_view(entries@),
            ) && !decks_wf(store_view(entries@)),
    {
        if !Self::ids_distinct(entries) {
            return Err(StoreError::DuplicateId);
        }
        if !Self::counts_valid(entries) {
            return Err(StoreError::InvalidCounts);
        }
        let ghost m = store_view(entries@);
        let mut s = DeckStore::new();
        let mut i: usize = 0;
        proof {
            assert(m.take(0) =~= Seq::<(u128, DeckModel)>::empty());
        }
        while i < entries.len()
            invariant
                i <= entries@.len(),
                m == store_view(entries@),
                importable(m),
                s.wf(),
                s.model() == m.take(i as int),
            decreases entries@.len() - i,
        {
            let d = entries[i].1.duplicate();
            let id = entries[i].0;
            proof {
                assert(m[i as int] == (id, d@));
                assert forall|c: int| 0 <= c < d.cards@.len() implies (#[trigger] d.cards@[c]).wf() by {
                    assert(m[i as int].1.wf());
                    assert(d@.cards[c] == d.cards@[c]@);
                }
                if has_id(s.model(), id) {
                    let k = choose|k: int| 0 <= k < s.model().len() && (#[trigger] s.model()[k]).0 == id;
                    assert(m[k].0 == m[i as int].0);
                }
            }
            let res = s.insert_deck(id, d.name, d.cards);
            if res.is_err() {
                return Err(StoreError::DuplicateId);
            }
            i += 1;
            assert(s.model() =~= m.take(i as int));
        }
        assert(m.take(i as int) =~= m);
        Ok(s)
    }

    /// The decks by identity, in the order in which they were added, as `import_decks`
    /// takes them back.
    pub fn export_decks(&self) -> (r: Vec<(u128, Deck)>)
        ensures
            store_view(r@) == self.model(),
    {
        let mut r: Vec<(u128, Deck)> = Vec::new();
        let mut i: usize = 0;
        assert(store_view(r@) =~= self.model().take(0));
        while i < self.decks.len()
            invariant
                i <= self.decks@.len(),
                store_view(r@) == self.model().take(i as int),
            decreases self.decks@.len() - i,
        {
            let ghost before = store_view(r@);
            let d = self.decks[i].1.duplicate();
            r.push((self.decks[i].0, d));
            i += 1;
            assert(store_view(r@) =~= before.push(self.model()[i - 1]));
            assert(self.model().take(i as int) =~= self.model().take(i - 1).push(self.model()[i - 1]));
        }
        assert(self.model().take(i as int) =~= self.model());
        r
    }
}

proof fn lemma_adjust_keeps_importable(
    decks: Seq<(u128, DeckModel)>,
    id: u128,
    name: Seq<char>,
    increment: bool,
)
    requires
        importable(decks),
    ensures
        importable(adjust_store(decks, id, name, increment)),
{
    let m = adjust_store(decks, id, name, increment);
    assert forall|i: int, j: int|
        0 <= i < m.len() && 0 <= j < m.len() && i != j implies #[trigger] m[i].0
        != #[trigger] m[j].0 by {
        assert(decks[i].0 != decks[j].0);
    }
    assert forall|i: int| 0 <= i < m.len() implies (#[trigger] m[i]).1.wf() by {
        assert(decks[i].1.wf());
        if decks[i].0 == id {
            assert forall|c: int| 0 <= c < m[i].1.cards.len() implies (#[trigger] m[i].1.cards[c]).wf() by {
                assert(decks[i].1.cards[c].wf());
            }
        }
    }
}

proof fn lemma_adjust_keeps_index(
    decks: Seq<(u128, DeckModel)>,
    id: u128,
    name: Seq<char>,
    increment: bool,
)
    ensures
        full_index(adjust_store(decks, id, name, increment)) == full_index(decks),
    decreases decks.len(),
{
    if decks.len() > 0 {
        let m = adjust_store(decks, id, name, increment);
        lemma_adjust_keeps_index(decks.drop_last(), id, name, increment);
        assert(m.drop_last() =~= adjust_store(decks.drop_last(), id, name, increment));
        let last = decks.last();
        assert(deck_index(m.last().0, m.last().1.cards) =~= deck_index(last.0, last.1.cards));
    }
}

/// Stepping a card's count at hand keeps it within `[0, quantity]`, and at either bound
/// a step past it changes nothing, however often it is repeated.
pub proof fn lemma_adjust_clamps(c: CardInDeckModel, increment: bool)
    requires
        c.wf(),
    ensures
        adjust_card(c, increment).wf(),
        adjust_card(c, increment).quantity == c.quantity,
        adjust_card(c, increment).card == c.card,
        c.current_quantity == 0 ==> adjust_card(c, false) == c,
        c.current_quantity == c.quantity ==> adjust_card(c, true) == c,
        adjust_card(c, false).current_quantity == if c.current_quantity > 0 {
            c.current_quantity - 1
        } else {
            0
        },
        adjust_card(c, true).current_quantity == if c.current_quantity < c.quantity {
            c.current_quantity + 1
        } else {
            c.quantity
        },
{
}

/// Once every card of a deck with the name sits at the bound, a further step past it
/// leaves the whole store as it is.
pub proof fn lemma_adjust_at_bound_is_fixed(
    decks: Seq<(u128, DeckModel)>,
    id: u128,
    name: Seq<char>,
    increment: bool,
)
    requires
        forall|i: int, c: int|
            0 <= i < decks.len() && decks[i].0 == id && 0 <= c < decks[i].1.cards.len()
                && (#[trigger] decks[i].1.cards[c]).card.name == name ==> if increment {
                decks[i].1.cards[c].current_quantity >= decks[i].1.cards[c].quantity
            } else {
                decks[i].1.cards[c].current_quantity <= 0
            },
    ensures
        adjust_store(decks, id, name, increment) == decks,
{
    let m = adjust_store(decks, id, name, increment);
    assert forall|i: int| 0 <= i < m.len() implies #[trigger] m[i] == decks[i] by {
        if decks[i].0 == id {
            assert(adjust_cards(decks[i].1.cards, name, increment) =~= decks[i].1.cards);
        }
    }
    assert(m =~= decks);
}

/// Entries with the model of a well-formed store, as `export_decks` gives, are what
/// `import_decks` accepts: it then returns `Ok` with a store whose model is that same
/// model, the same decks (identity, name and cards with their counts) in the same order.
pub proof fn lemma_export_import_round_trip(s: &DeckStore)
    requires
        s.wf(),
    ensures
        forall|entries: Seq<(u128, Deck)>|
            #[trigger] store_view(entries) == s.model() ==> importable(store_view(entries)),
{
}

} // verus!
