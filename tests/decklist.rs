use mtg_organizer::decklist::{parse_decklist, resolve_decklist, DecklistLine};
use mtg_organizer::models::{Card, CardErrorInsight};

fn card(name: &str, img: &str) -> Card {
    Card { name: name.to_owned(), img: img.to_owned() }
}

fn lookups_for(lines: &[DecklistLine], answer: impl Fn(&str) -> Result<Card, String>) -> Vec<Result<Card, String>> {
    lines
        .iter()
        .map(|l| if l.needs_lookup() { answer(&l.name) } else { Err(String::new()) })
        .collect()
}

#[test]
fn scenario_valid_zero_and_unparsable_lines() {
    let lines = parse_decklist("4 Lightning Bolt\n0 BadCard\nbad text");
    assert_eq!(lines.len(), 3);
    assert_eq!(lines[0].quantity, 4);
    assert_eq!(lines[0].name, "Lightning Bolt");
    assert_eq!(lines[1].quantity, 0);
    assert_eq!(lines[1].name, "BadCard");
    assert_eq!(lines[2].quantity, 0);
    assert_eq!(lines[2].name, "text");
    let lookups = lookups_for(&lines, |n| Ok(card(n, "https://img/bolt.jpg")));
    let (resolved, errors) = resolve_decklist(&lines, &lookups);
    assert_eq!(resolved.len(), 1);
    assert_eq!(resolved[0].card.name, "Lightning Bolt");
    assert_eq!(resolved[0].card.img, "https://img/bolt.jpg");
    assert_eq!(resolved[0].quantity, 4);
    assert_eq!(resolved[0].current_quantity, 0);
    assert_eq!(errors.len(), 2);
    assert_eq!(errors[0].card_name, "BadCard");
    assert_eq!(errors[0].error, "Invalid quantity");
    assert_eq!(errors[1].card_name, "text");
    assert_eq!(errors[1].error, "Invalid quantity");
}

#[test]
fn blank_lines_are_skipped_and_spaces_collapse() {
    let lines = parse_decklist("\n   \n  2   Counter\tspell  \r\n\n\u{3000}\n1 Island\n");
    assert_eq!(lines.len(), 2);
    assert_eq!(lines[0].quantity, 2);
    assert_eq!(lines[0].name, "Counter spell");
    assert_eq!(lines[1].quantity, 1);
    assert_eq!(lines[1].name, "Island");
}

#[test]
fn empty_text_gives_nothing() {
    let lines = parse_decklist("");
    assert!(lines.is_empty());
    let (resolved, errors) = resolve_decklist(&lines, &Vec::new());
    assert!(resolved.is_empty());
    assert!(errors.is_empty());
}

#[test]
fn count_forms() {
    let lines = parse_decklist("+3 Island\n-2 Swamp\n99999999999 Forest\n2147483647 Plains\n007 Mountain\n2147483648 Wastes\n3x Bolt\n5\n");
    let counts: Vec<i32> = lines.iter().map(|l| l.quantity).collect();
    assert_eq!(counts, vec![3, 0, 0, i32::MAX, 7, 0, 0, 5]);
    assert_eq!(lines[7].name, "");
    assert!(lines[0].needs_lookup());
    assert!(!lines[1].needs_lookup());
}

#[test]
fn catalog_errors_pass_through_and_canonical_names_win() {
    let lines = parse_decklist("2 lightnin bolt\n1 Nonexistent Card\n3 Island");
    let lookups = lookups_for(&lines, |n| match n {
        "lightnin bolt" => Ok(card("Lightning Bolt", "b")),
        "Island" => Ok(card("Island", "i")),
        _ => Err("not found".to_owned()),
    });
    let (resolved, errors) = resolve_decklist(&lines, &lookups);
    assert_eq!(resolved.len(), 2);
    assert_eq!(resolved[0].card.name, "Lightning Bolt");
    assert_eq!(resolved[0].quantity, 2);
    assert_eq!(resolved[1].card.name, "Island");
    assert_eq!(resolved[1].quantity, 3);
    assert_eq!(errors.len(), 1);
    assert_eq!(errors[0].card_name, "Nonexistent Card");
    assert_eq!(errors[0].error, "not found");
}

#[test]
fn outputs_never_outnumber_nonblank_lines() {
    let text = "1 A\n\n0 B\n  \nx C\n2 D\n";
    let lines = parse_decklist(text);
    let nonblank = text.lines().filter(|l| !l.trim().is_empty()).count();
    assert_eq!(lines.len(), nonblank);
    let lookups = lookups_for(&lines, |n| if n == "A" { Ok(card("A", "")) } else { Err("no".to_owned()) });
    let (resolved, errors) = resolve_decklist(&lines, &lookups);
    assert!(resolved.len() + errors.len() <= nonblank);
    assert_eq!(resolved.len(), 1);
    assert_eq!(errors.len(), 3);
}

#[test]
fn catalog_image_preference() {
    let c = Card::from_catalog("X".to_owned(), Some("small".to_owned()), Some("png".to_owned()));
    assert_eq!(c.img, "small");
    let c = Card::from_catalog("X".to_owned(), None, Some("png".to_owned()));
    assert_eq!(c.img, "png");
    let c = Card::from_catalog("X".to_owned(), None, None);
    assert_eq!(c.img, "");
    assert_eq!(c.name, "X");
}

#[test]
fn error_insight_new_copies_text() {
    let e = CardErrorInsight::new("Bolt", "Invalid quantity");
    assert_eq!(e.card_name, "Bolt");
    assert_eq!(e.error, "Invalid quantity");
}
