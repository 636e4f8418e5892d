use fuzzy_matcher::skim::SkimMatcherV2;
use fuzzy_matcher::FuzzyMatcher;
use mtg_organizer::models::IndexedCard;
use mtg_organizer::search::{fuzzy_top_n, rank_top_n, top_positions};

fn entry(name: &str, deck_id: u128) -> IndexedCard {
    IndexedCard { name: name.to_owned(), img: String::new(), deck_id }
}

#[test]
fn ranking_is_stable_and_skips_unscored() {
    let scores = vec![Some(5), None, Some(9), Some(5), Some(-1)];
    assert_eq!(top_positions(&scores, 2), vec![2, 0]);
    assert_eq!(top_positions(&scores, 10), vec![2, 0, 3, 4]);
    assert_eq!(top_positions(&scores, 0), Vec::<usize>::new());
    assert_eq!(top_positions(&Vec::new(), 3), Vec::<usize>::new());
    let cards: Vec<IndexedCard> = (0..5).map(|i| entry(&format!("c{}", i), i as u128)).collect();
    let r = rank_top_n(&cards, &scores, 3);
    let got: Vec<String> = r.iter().map(|c| c.name.clone()).collect();
    assert_eq!(got, vec!["c2", "c0", "c3"]);
}

#[test]
fn fuzzy_search_limits_sorts_and_filters() {
    let cards = vec![
        entry("Counterspell", 1),
        entry("Lightning Bolt", 1),
        entry("Lightning Helix", 2),
        entry("Island", 2),
    ];
    let all = fuzzy_top_n("lightning", &cards, 10);
    assert!(all.len() <= 10);
    let names: Vec<&str> = all.iter().map(|c| c.name.as_str()).collect();
    assert!(names.contains(&"Lightning Bolt"));
    assert!(names.contains(&"Lightning Helix"));
    assert!(!names.contains(&"Counterspell"));
    let m = SkimMatcherV2::default();
    let scores: Vec<i64> = all.iter().map(|c| m.fuzzy_match(&c.name, "lightning").unwrap()).collect();
    for w in scores.windows(2) {
        assert!(w[0] >= w[1]);
    }
    let one = fuzzy_top_n("lightning", &cards, 1);
    assert_eq!(one.len(), 1);
    assert_eq!(one[0].name, all[0].name);
    assert!(fuzzy_top_n("zzzz", &cards, 10).is_empty());
}
