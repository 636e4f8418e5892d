use vstd::prelude::*;

verus! {

/// A card as the catalog names it: its canonical name and a reference to its image.
#[derive(Clone, Debug)]
pub struct Card {
    pub name: String,
    pub img: String,
}

pub struct CardModel {
    pub name: Seq<char>,
    pub img: Seq<char>,
}

impl View for Card {
    type V = CardModel;

    open spec fn view(&self) -> CardModel {
        CardModel { name: self.name@, img: self.img@ }
    }
}

impl Card {
    /// A field-by-field copy whose contents are known to the verifier.
    pub fn duplicate(&self) -> (r: Card)
        ensures
            r@ == self@,
    {
        Card { name: self.name.clone(), img: self.img.clone() }
    }

    /// Builds the canonical card from what the catalog reports: the small image is
    /// preferred, then the large one, and a card without either gets an empty reference.
    pub fn from_catalog(name: String, small: Option<String>, png: Option<String>) -> (r: Card)
        ensures
            r.name@ == name@,
            r.img@ == match small {
                Some(s) => s@,
                None => match png {
                    Some(p) => p@,
                    None => Seq::<char>::empty(),
                },
            },
    {
        let img = match small {
            Some(s) => s,
            None => match png {
                Some(p) => p,
                None => String::new(),
            },
        };
        Card { name, img }
    }
}

/// A card of a deck: how many copies the deck asks for and how many are at hand.
#[derive(Clone, Debug)]
pub struct CardInDeck {
    pub quantity: i32,
    pub current_quantity: i32,
    pub card: Card,
}

pub struct CardInDeckModel {
    pub quantity: int,
    pub current_quantity: int,
    pub card: CardModel,
}

impl View for CardInDeck {
    type V = CardInDeckModel;

    open spec fn view(&self) -> CardInDeckModel {
        CardInDeckModel {
            quantity: self.quantity as int,
            current_quantity: self.current_quantity as int,
            card: self.card@,
        }
    }
}

impl CardInDeckModel {
    /// The count at hand never goes below zero nor above the target.
    pub open spec fn wf(&self) -> bool {
        0 <= self.current_quantity <= self.quantity
    }
}

impl CardInDeck {
    pub open spec fn wf(&self) -> bool {
        self@.wf()
    }

    pub fn duplicate(&self) -> (r: CardInDeck)
        ensures
            r@ == self@,
    {
        CardInDeck {
            quantity: self.quantity,
            current_quantity: self.current_quantity,
            card: self.card.duplicate(),
        }
    }

    /// Whether one more copy can be checked off.
    pub fn can_add(&self) -> (r: bool)
        ensures
            r == (self.current_quantity < self.quantity),
    {
        self.current_quantity < self.quantity
    }

    /// Whether one copy can be unchecked.
    pub fn can_remove(&self) -> (r: bool)
        ensures
            r == (self.current_quantity > 0),
    {
        self.current_quantity > 0
    }
}

/// A named deck: its cards in the order in which they were resolved.
#[derive(Clone, Debug)]
pub struct Deck {
    pub name: String,
    pub cards: Vec<CardInDeck>,
}

pub struct DeckModel {
    pub name: Seq<char>,
    pub cards: Seq<CardInDeckModel>,
}

pub open spec fn cards_view(cards: Seq<CardInDeck>) -> Seq<CardInDeckModel> {
    cards.map_values(|c: CardInDeck| c@)
}

impl View for Deck {
    type V = DeckModel;

    open spec fn view(&self) -> DeckModel {
        DeckModel { name: self.name@, cards: cards_view(self.cards@) }
    }
}

impl DeckModel {
    pub open spec fn wf(&self) -> bool {
        forall|i: int| 0 <= i < self.cards.len() ==> (#[trigger] self.cards[i]).wf()
    }
}

impl Deck {
    pub fn duplicate(&self) -> (r: Deck)
        ensures
            r@ == self@,
    {
        let mut cards: Vec<CardInDeck> = Vec::new();
        let mut i: usize = 0;
        while i < self.cards.len()
            invariant
                i <= self.cards.len(),
                cards.len() == i,
                forall|k: int| 0 <= k < i ==> (#[trigger] cards@[k])@ == self.cards@[k]@,
            decreases self.cards.len() - i,
        {
            cards.push(self.cards[i].duplicate());
            i += 1;
        }
        assert(cards_view(cards@) =~= cards_view(self.cards@));
        Deck { name: self.name.clone(), cards }
    }

    /// The sums of the target counts and of the counts at hand over the deck's cards.
    pub fn totals(&self) -> (r: (i64, i64))
        requires
            self.cards.len() <= u32::MAX,
        ensures
            r.0 == sum_quantity(cards_view(self.cards@)),
            r.1 == sum_current(cards_view(self.cards@)),
    {
        card_totals(&self.cards)
    }

    /// The first card of the deck with the name, if any.
    pub fn find_card(&self, name: &String) -> (r: Option<&CardInDeck>)
        ensures
            r is None ==> forall|i: int|
                0 <= i < self.cards@.len() ==> (#[trigger] self.cards@[i]).card.name@ != name@,
            r matches Some(c) ==> exists|i: int|
                0 <= i < self.cards@.len() && self.cards@[i] == *c && c.card.name@ == name@
                    && forall|j: int| 0 <= j < i ==> (#[trigger] self.cards@[j]).card.name@ != name@,
    {
        let mut i: usize = 0;
        while i < self.cards.len()
            invariant
                i <= self.cards@.len(),
                forall|j: int| 0 <= j < i ==> (#[trigger] self.cards@[j]).card.name@ != name@,
            decreases self.cards@.len() - i,
        {
            if self.cards[i].card.name.eq(name) {
                return Some(&self.cards[i]);
            }
            i += 1;
        }
        None
    }
}

/// The sums of the target counts and of the counts at hand over the cards.
pub fn card_totals(cards: &Vec<CardInDeck>) -> (r: (i64, i64))
    requires
        cards.len() <= u32::MAX,
    ensures
        r.0 == sum_quantity(cards_view(cards@)),
        r.1 == sum_current(cards_view(cards@)),
{
    let mut total: i64 = 0;
    let mut current: i64 = 0;
    let mut i: usize = 0;
    while i < cards.len()
        invariant
            i <= cards.len() <= u32::MAX,
            total == sum_quantity(cards_view(cards@).take(i as int)),
            current == sum_current(cards_view(cards@).take(i as int)),
            -(i as int) * 0x8000_0000 <= total <= (i as int) * 0x7fff_ffff,
            -(i as int) * 0x8000_0000 <= current <= (i as int) * 0x7fff_ffff,
        decreases cards.len() - i,
    {
        let ghost before = cards_view(cards@).take(i as int);
        let c = &cards[i];
        proof {
            assert(cards_view(cards@).take(i + 1).drop_last() =~= before);
        }
        total = total + c.quantity as i64;
        current = current + c.current_quantity as i64;
        i += 1;
    }
    assert(cards_view(cards@).take(i as int) =~= cards_view(cards@));
    (total, current)
}

pub open spec fn sum_quantity(cards: Seq<CardInDeckModel>) -> int
    decreases cards.len(),
{
    if cards.len() == 0 {
        0
    } else {
        sum_quantity(cards.drop_last()) + cards.last().quantity
    }
}

pub open spec fn sum_current(cards: Seq<CardInDeckModel>) -> int
    decreases cards.len(),
{
    if cards.len() == 0 {
        0
    } else {
        sum_current(cards.drop_last()) + cards.last().current_quantity
    }
}

/// One entry of the searchable projection of all decks: a card and the deck it is in.
#[derive(Clone, Debug)]
pub struct IndexedCard {
    pub name: String,
    pub img: String,
    pub deck_id: u128,
}

pub struct IndexedCardModel {
    pub name: Seq<char>,
    pub img: Seq<char>,
    pub deck_id: u128,
}

impl View for IndexedCard {
    type V = IndexedCardModel;

    open spec fn view(&self) -> IndexedCardModel {
        IndexedCardModel { name: self.name@, img: self.img@, deck_id: self.deck_id }
    }
}

pub open spec fn index_view(entries: Seq<IndexedCard>) -> Seq<IndexedCardModel> {
    entries.map_values(|e: IndexedCard| e@)
}

impl IndexedCard {
    pub fn duplicate(&self) -> (r: IndexedCard)
        ensures
            r@ == self@,
    {
        IndexedCard { name: self.name.clone(), img: self.img.clone(), deck_id: self.deck_id }
    }
}

/// What went wrong with one line of a decklist.
#[derive(Clone, Debug)]
pub struct CardErrorInsight {
    pub card_name: String,
    pub error: String,
}

pub struct ErrorModel {
    pub card_name: Seq<char>,
    pub error: Seq<char>,
}

impl View for CardErrorInsight {
    type V = ErrorModel;

    open spec fn view(&self) -> ErrorModel {
        ErrorModel { card_name: self.card_name@, error: self.error@ }
    }
}

impl CardErrorInsight {
    pub fn new(card_name: &str, error: &str) -> (r: Self)
        ensures
            r.card_name@ == card_name@,
            r.error@ == error@,
    {
        CardErrorInsight { card_name: String::from_str(card_name), error: String::from_str(error) }
    }
}

} // verus!
