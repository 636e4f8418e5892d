use mtg_organizer::models::{card_totals, Card, CardInDeck, Deck};
use mtg_organizer::store::{build_card_index, DeckStore, StoreError};

fn cid(name: &str, quantity: i32, current: i32) -> CardInDeck {
    CardInDeck {
        quantity,
        current_quantity: current,
        card: Card { name: name.to_owned(), img: format!("img/{}", name) },
    }
}

fn names(store: &DeckStore) -> Vec<(String, u128)> {
    store.card_index().iter().map(|e| (e.name.clone(), e.deck_id)).collect()
}

#[test]
fn create_needs_a_resolution() {
    let mut s = DeckStore::new();
    assert_eq!(s.create_deck("Burn".to_owned(), None), Err(StoreError::MissingResolution));
    assert!(s.decks().is_empty());
    let id = s.create_deck("Burn".to_owned(), Some(vec![cid("Bolt", 4, 0), cid("Guide", 2, 0)])).unwrap();
    assert!(s.contains(id));
    let d = s.get_deck(id).unwrap();
    assert_eq!(d.name, "Burn");
    assert_eq!(d.cards.len(), 2);
    assert_eq!(names(&s), vec![("Bolt".to_owned(), id), ("Guide".to_owned(), id)]);
    assert_eq!(s.card_index()[0].img, "img/Bolt");
}

#[test]
fn creation_with_a_resolution_always_succeeds_under_fresh_ids() {
    let mut s = DeckStore::new();
    let mut ids = Vec::new();
    for i in 0..20 {
        let id = s.create_deck(format!("D{}", i), Some(vec![cid("X", 1, 0)])).unwrap();
        assert!(!ids.contains(&id));
        ids.push(id);
    }
    assert_eq!(s.decks().len(), 20);
    assert_eq!(s.card_index().len(), 20);
    s.insert_deck(0, "Zero".to_owned(), vec![]).unwrap();
    assert!(s.create_deck("E".to_owned(), Some(vec![])).is_ok());
}

#[test]
fn duplicate_identity_is_refused() {
    let mut s = DeckStore::new();
    assert_eq!(s.insert_deck(7, "A".to_owned(), vec![cid("X", 1, 0)]), Ok(()));
    assert_eq!(s.insert_deck(7, "B".to_owned(), vec![cid("Y", 1, 0)]), Err(StoreError::DuplicateId));
    assert_eq!(s.decks().len(), 1);
    assert_eq!(s.card_index().len(), 1);
    assert!(s.get_deck(8).is_none());
}

#[test]
fn delete_removes_only_that_decks_entries() {
    let mut s = DeckStore::new();
    s.insert_deck(1, "A".to_owned(), vec![cid("X", 1, 0), cid("Y", 2, 1)]).unwrap();
    s.insert_deck(2, "B".to_owned(), vec![cid("X", 3, 0)]).unwrap();
    s.insert_deck(3, "C".to_owned(), vec![cid("Z", 1, 1)]).unwrap();
    s.delete_deck(2);
    assert_eq!(names(&s), vec![("X".to_owned(), 1), ("Y".to_owned(), 1), ("Z".to_owned(), 3)]);
    assert!(!s.contains(2));
    assert_eq!(s.decks().len(), 2);
    s.delete_deck(99);
    assert_eq!(s.decks().len(), 2);
}

#[test]
fn adjust_quantity_clamps() {
    let mut s = DeckStore::new();
    s.insert_deck(1, "A".to_owned(), vec![cid("X", 2, 0), cid("Y", 1, 0)]).unwrap();
    let x = "X".to_owned();
    s.adjust_quantity(1, &x, false);
    assert_eq!(s.get_deck(1).unwrap().cards[0].current_quantity, 0);
    for _ in 0..5 {
        s.adjust_quantity(1, &x, true);
    }
    assert_eq!(s.get_deck(1).unwrap().cards[0].current_quantity, 2);
    assert_eq!(s.get_deck(1).unwrap().cards[1].current_quantity, 0);
    s.adjust_quantity(1, &x, false);
    assert_eq!(s.get_deck(1).unwrap().cards[0].current_quantity, 1);
    s.adjust_quantity(5, &x, true);
    assert_eq!(s.get_deck(1).unwrap().cards[0].current_quantity, 1);
}

#[test]
fn export_then_import_round_trips() {
    let mut s = DeckStore::new();
    s.insert_deck(10, "A".to_owned(), vec![cid("X", 3, 2)]).unwrap();
    s.insert_deck(20, "B".to_owned(), vec![cid("Y", 1, 0), cid("Z", 4, 4)]).unwrap();
    let exported = s.export_decks();
    let t = DeckStore::import_decks(&exported).unwrap();
    assert_eq!(t.decks().len(), 2);
    for (a, b) in s.decks().iter().zip(t.decks().iter()) {
        assert_eq!(a.0, b.0);
        assert_eq!(a.1.name, b.1.name);
        assert_eq!(a.1.cards.len(), b.1.cards.len());
        for (c, d) in a.1.cards.iter().zip(b.1.cards.iter()) {
            assert_eq!(c.card.name, d.card.name);
            assert_eq!(c.card.img, d.card.img);
            assert_eq!(c.quantity, d.quantity);
            assert_eq!(c.current_quantity, d.current_quantity);
        }
    }
    assert_eq!(names(&t), names(&s));
}

#[test]
fn import_refuses_bad_data() {
    let deck = |cards| Deck { name: "D".to_owned(), cards };
    let dup = vec![(1u128, deck(vec![cid("X", 1, 0)])), (1u128, deck(vec![]))];
    assert_eq!(DeckStore::import_decks(&dup).err(), Some(StoreError::DuplicateId));
    let over = vec![(1u128, deck(vec![cid("X", 1, 2)]))];
    assert_eq!(DeckStore::import_decks(&over).err(), Some(StoreError::InvalidCounts));
    let neg = vec![(1u128, deck(vec![cid("X", 1, -1)]))];
    assert_eq!(DeckStore::import_decks(&neg).err(), Some(StoreError::InvalidCounts));
    let empty: Vec<(u128, Deck)> = Vec::new();
    assert!(DeckStore::import_decks(&empty).unwrap().decks().is_empty());
}

#[test]
fn totals_and_lookup_in_a_deck() {
    let d = Deck { name: "D".to_owned(), cards: vec![cid("X", 4, 1), cid("Y", 2, 2), cid("X", 1, 0)] };
    assert_eq!(d.totals(), (7, 3));
    assert_eq!(card_totals(&d.cards), (7, 3));
    let found = d.find_card(&"X".to_owned()).unwrap();
    assert_eq!(found.quantity, 4);
    assert!(found.can_add());
    assert!(found.can_remove());
    let y = d.find_card(&"Y".to_owned()).unwrap();
    assert!(!y.can_add());
    assert!(d.find_card(&"W".to_owned()).is_none());
    assert!(!cid("Q", 1, 0).can_remove());
}

#[test]
fn index_of_one_deck() {
    let cards = vec![cid("X", 1, 0), cid("Y", 2, 0)];
    let idx = build_card_index(42, &cards);
    assert_eq!(idx.len(), 2);
    assert_eq!(idx[1].name, "Y");
    assert_eq!(idx[1].img, "img/Y");
    assert_eq!(idx[1].deck_id, 42);
}
