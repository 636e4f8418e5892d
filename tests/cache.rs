use mtg_organizer::cache::ImageCache;
use mtg_organizer::models::IndexedCard;

#[test]
fn cache_hits_misses_and_updates() {
    let mut c = ImageCache::new();
    let bolt = "Bolt".to_owned();
    let fallback = vec![0u8];
    assert!(c.get(&bolt).is_none());
    assert!(c.needs_fetch(&bolt));
    assert_eq!(c.image_or(&bolt, &fallback), &vec![0u8]);
    c.update(bolt.clone(), Some(vec![1, 2, 3]));
    assert_eq!(c.get(&bolt), Some(&vec![1, 2, 3]));
    assert!(!c.needs_fetch(&bolt));
    c.update(bolt.clone(), None);
    assert_eq!(c.get(&bolt), Some(&vec![1, 2, 3]));
    c.update(bolt.clone(), Some(vec![4]));
    assert_eq!(c.image_or(&bolt, &fallback), &vec![4u8]);
}

#[test]
fn pending_lists_uncached_entries() {
    let mut c = ImageCache::new();
    c.update("B".to_owned(), Some(vec![9]));
    let entries: Vec<IndexedCard> = ["A", "B", "C"]
        .iter()
        .map(|n| IndexedCard { name: n.to_string(), img: String::new(), deck_id: 1 })
        .collect();
    let p = c.pending(&entries);
    let names: Vec<&str> = p.iter().map(|e| e.name.as_str()).collect();
    assert_eq!(names, vec!["A", "C"]);
}
