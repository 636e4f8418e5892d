use vstd::prelude::*;

use crate::models::{index_view, IndexedCard, IndexedCardModel};

verus! {

/// The images held, by card name: a later entry for a name hides an earlier one.
pub open spec fn entries_map(entries: Seq<(Seq<char>, Seq<u8>)>) -> Map<Seq<char>, Seq<u8>>
    decreases entries.len(),
{
    if entries.len() == 0 {
        Map::empty()
    } else {
        entries_map(entries.drop_last()).insert(entries.last().0, entries.last().1)
    }
}

pub open spec fn entries_view(entries: Seq<(String, Vec<u8>)>) -> Seq<(Seq<char>, Seq<u8>)> {
    entries.map_values(|e: (String, Vec<u8>)| (e.0@, e.1@))
}

proof fn lemma_map_hit(entries: Seq<(Seq<char>, Seq<u8>)>, key: Seq<char>, p: int)
    requires
        0 <= p < entries.len(),
        entries[p].0 == key,
        forall|j: int| p < j < entries.len() ==> (#[trigger] entries[j]).0 != key,
    ensures
        entries_map(entries).contains_key(key),
        entries_map(entries)[key] == entries[p].1,
    decreases entries.len(),
{
    if p < entries.len() - 1 {
        let rest = entries.drop_last();
        assert forall|j: int| p < j < rest.len() implies (#[trigger] rest[j]).0 != key by {
            assert(rest[j] == entries[j]);
        }
        lemma_map_hit(rest, key, p);
        assert(entries[entries.len() - 1].0 != key);
    }
}

proof fn lemma_map_miss(entries: Seq<(Seq<char>, Seq<u8>)>, key: Seq<char>)
    requires
        forall|j: int| 0 <= j < entries.len() ==> (#[trigger] entries[j]).0 != key,
    ensures
        !entries_map(entries).contains_key(key),
    decreases entries.len(),
{
    if entries.len() > 0 {
        let rest = entries.drop_last();
        assert forall|j: int| 0 <= j < rest.len() implies (#[trigger] rest[j]).0 != key by {
            assert(rest[j] == entries[j]);
        }
        lemma_map_miss(rest, key);
        assert(entries[entries.len() - 1].0 != key);
    }
}

/// Card images by card name. A missing entry is only a miss, never an error.
pub struct ImageCache {
    entries: Vec<(String, Vec<u8>)>,
}

impl ImageCache {
    /// The images held, by card name.
    pub closed spec fn model(&self) -> Map<Seq<char>, Seq<u8>> {
        entries_map(entries_view(self.entries@))
    }

    pub fn new() -> (r: ImageCache)
        ensures
            r.model() == Map::<Seq<char>, Seq<u8>>::empty(),
    {
        let r = ImageCache { entries: Vec::new() };
        assert(entries_view(r.entries@) =~= Seq::<(Seq<char>, Seq<u8>)>::empty());
        r
    }

    /// The image held for the name, if any.
    pub fn get(&self, key: &String) -> (r: Option<&Vec<u8>>)
        ensures
            r is Some <==> self.model().contains_key(key@),
            r matches Some(b) ==> b@ == self.model()[key@],
    {
        let ghost ev = entries_view(self.entries@);
        let mut i: usize = self.entries.len();
        while i > 0
            invariant
                i <= self.entries@.len(),
                ev == entries_view(self.entries@),
                forall|j: int| i <= j < ev.len() ==> (#[trigger] ev[j]).0 != key@,
            decreases i,
        {
            if self.entries[i - 1].0.eq(key) {
                proof {
                    lemma_map_hit(ev, key@, i - 1);
                }
                return Some(&self.entries[i - 1].1);
            }
            i -= 1;
        }
        proof {
            lemma_map_miss(ev, key@);
        }
        None
    }

    /// Whether no image is held for the name, so that one should be fetched.
    pub fn needs_fetch(&self, key: &String) -> (r: bool)
        ensures
            r == !self.model().contains_key(key@),
    {
        self.get(key).is_none()
    }

    /// The image held for the name, or else the fallback.
    pub fn image_or<'a>(&'a self, key: &String, fallback: &'a Vec<u8>) -> (r: &'a Vec<u8>)
        ensures
            r@ == if self.model().contains_key(key@) {
                self.model()[key@]
            } else {
                fallback@
            },
    {
        match self.get(key) {
            Some(b) => b,
            None => fallback,
        }
    }

    /// Records the outcome of a fetch for the name: the fetched image replaces what was
    /// held, and a failed fetch changes nothing.
    pub fn update(&mut self, name: String, bytes: Option<Vec<u8>>)
        ensures
            final(self).model() == match bytes {
                Some(b) => old(self).model().insert(name@, b@),
                None => old(self).model(),
            },
    {
        match bytes {
            Some(b) => {
                let ghost before = entries_view(self.entries@);
                let ghost k = name@;
                let ghost v = b@;
                self.entries.push((name, b));
                assert(entries_view(self.entries@) =~= before.push((k, v)));
                assert(entries_view(self.entries@).drop_last() =~= before);
            },
            None => {},
        }
    }

    /// The entries whose image is not held yet, in their order.
    pub fn pending(&self, cards: &Vec<IndexedCard>) -> (r: Vec<IndexedCard>)
        ensures
            index_view(r@) == index_view(cards@).filter(
                |c: IndexedCardModel| !self.model().contains_key(c.name),
            ),
    {
        let ghost all = index_view(cards@);
        let ghost keep = |c: IndexedCardModel| !self.model().contains_key(c.name);
        let mut r: Vec<IndexedCard> = Vec::new();
        let mut i: usize = 0;
        proof {
            reveal(Seq::filter);
            assert(all.take(0) =~= Seq::<IndexedCardModel>::empty());
            assert(index_view(r@) =~= Seq::<IndexedCardModel>::empty());
        }
        while i < cards.len()
            invariant
                i <= cards@.len(),
                all == index_view(cards@),
                keep == (|c: IndexedCardModel| !self.model().contains_key(c.name)),
                index_view(r@) == all.take(i as int).filter(keep),
            decreases cards@.len() - i,
        {
            let ghost before = index_view(r@);
            proof {
                reveal(Seq::filter);
                assert(all.take(i + 1).drop_last() =~= all.take(i as int));
                assert(all.take(i + 1).last() == all[i as int]);
            }
            if self.needs_fetch(&cards[i].name) {
                r.push(cards[i].duplicate());
                assert(index_view(r@) =~= before.push(all[i as int]));
            }
            i += 1;
        }
        assert(all.take(i as int) =~= all);
        r
    }
}

} // verus!
