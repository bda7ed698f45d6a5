use sorcerers::card::Rarity;
use sorcerers::deck::precon::PreconDeck;
use sorcerers::deck::{CardNameWithCount, CardRarity, Deck, DeckList};
use sorcerers::networking::message::DeckChoice;

fn line(count: u8, name: &str) -> CardNameWithCount {
    CardNameWithCount { count, name: name.to_string() }
}

#[test]
fn card_lines_parse() {
    let c = CardNameWithCount::parse("2x Pit Vipers").unwrap();
    assert_eq!(c.count, 2);
    assert_eq!(c.name, "Pit Vipers");
    let c = CardNameWithCount::parse("  12 x   Arid Desert  ").unwrap();
    assert_eq!(c.count, 12);
    assert_eq!(c.name, "Arid Desert");
    let c = CardNameWithCount::parse("+3x Wax Golem").unwrap();
    assert_eq!(c.count, 3);
    assert_eq!(c.name, "Wax Golem");
}

#[test]
fn card_lines_split_at_the_first_x() {
    let c = CardNameWithCount::parse("1x Xylophone x").unwrap();
    assert_eq!(c.name, "Xylophone x");
}

#[test]
fn card_line_without_x_is_refused() {
    let e = CardNameWithCount::parse("Pit Vipers").unwrap_err();
    assert_eq!(e, "Invalid card count format: \"Pit Vipers\"");
}

#[test]
fn card_line_with_bad_count_is_refused() {
    let e = CardNameWithCount::parse("twox Pit Vipers").unwrap_err();
    assert_eq!(e, "Invalid count in card format: \"twox Pit Vipers\"");
    let e = CardNameWithCount::parse("256x Pit Vipers").unwrap_err();
    assert_eq!(e, "Invalid count in card format: \"256x Pit Vipers\"");
    assert!(CardNameWithCount::parse("-1x Pit Vipers").is_err());
    assert!(CardNameWithCount::parse("x Pit Vipers").is_err());
}

#[test]
fn card_lines_read_back() {
    for (count, name) in [(0u8, "Fireball"), (7, "Sand Worm"), (255, "Ogre Goons")] {
        let c = line(count, name);
        let text = c.to_display_string();
        let back = CardNameWithCount::parse(&text).unwrap();
        assert_eq!(back.count, count);
        assert_eq!(back.name, name);
    }
    assert_eq!(line(4, "Arid Desert").to_display_string(), "4x Arid Desert");
}

fn catalogue() -> Vec<CardRarity> {
    vec![
        CardRarity { name: "Sorcerer".to_string(), rarity: Rarity::Unique },
        CardRarity { name: "Pit Vipers".to_string(), rarity: Rarity::Ordinary },
        CardRarity { name: "Fireball".to_string(), rarity: Rarity::Exceptional },
        CardRarity { name: "Wildfire".to_string(), rarity: Rarity::Elite },
        CardRarity { name: "Arid Desert".to_string(), rarity: Rarity::Ordinary },
        CardRarity { name: "Cornerstone".to_string(), rarity: Rarity::Unique },
    ]
}

fn good_deck() -> DeckList {
    let mut spells = vec![];
    for _ in 0..15 {
        spells.push(line(4, "Pit Vipers"));
    }
    let mut sites = vec![];
    for _ in 0..8 {
        sites.push(line(4, "Arid Desert"));
    }
    // Copy limits count copies, so these lists are built from distinct names below.
    DeckList { name: "Fire".to_string(), sites, spells, avatar: "Sorcerer".to_string() }
}

#[test]
fn deck_list_errors_come_in_order() {
    let cards = catalogue();
    let mut d = good_deck();
    d.name = String::new();
    assert_eq!(d.validate(&cards).unwrap_err(), "Deck name cannot be empty.");
    let mut d = good_deck();
    d.avatar = String::new();
    assert_eq!(d.validate(&cards).unwrap_err(), "Please select an avatar.");
    let mut d = good_deck();
    d.avatar = "Nobody".to_string();
    assert_eq!(d.validate(&cards).unwrap_err(), "Unknown avatar: \"Nobody\".");
    let mut d = good_deck();
    d.spells.truncate(14);
    assert_eq!(
        d.validate(&cards).unwrap_err(),
        "Spellbook needs at least 60 cards (you have 56)."
    );
    let mut d = good_deck();
    d.sites.truncate(7);
    assert_eq!(
        d.validate(&cards).unwrap_err(),
        "Atlas needs at least 30 sites (you have 28)."
    );
}

#[test]
fn deck_list_refuses_unknown_cards() {
    let cards = catalogue();
    let mut d = good_deck();
    d.spells.push(line(1, "Mystery"));
    assert_eq!(d.validate(&cards).unwrap_err(), "Unknown card: \"Mystery\".");
    let mut d = good_deck();
    d.spells = vec![line(60, "Fireball")];
    d.sites.push(line(1, "Nowhere"));
    assert!(d.validate(&cards).unwrap_err().starts_with("Too many copies of \"Fireball\""));
}

#[test]
fn deck_list_enforces_copy_limits() {
    let cards = catalogue();
    let mut d = good_deck();
    d.spells = vec![line(60, "Pit Vipers")];
    assert_eq!(
        d.validate(&cards).unwrap_err(),
        "Too many copies of \"Pit Vipers\" (60 \u{2014} max 4 for Ordinary)."
    );
    let mut d = good_deck();
    d.spells = vec![line(3, "Pit Vipers"), line(55, "Wildfire"), line(2, "Pit Vipers")];
    assert_eq!(
        d.validate(&cards).unwrap_err(),
        "Too many copies of \"Pit Vipers\" (5 \u{2014} max 4 for Ordinary)."
    );
    let mut d = good_deck();
    d.spells = vec![line(2, "Wildfire"), line(58, "Fireball")];
    assert_eq!(
        d.validate(&cards).unwrap_err(),
        "Too many copies of \"Fireball\" (58 \u{2014} max 3 for Exceptional)."
    );
    let mut d = good_deck();
    d.spells = vec![line(2, "Wildfire"), line(3, "Fireball"), line(55, "Pit Vipers")];
    d.sites = vec![line(2, "Cornerstone"), line(28, "Arid Desert")];
    assert_eq!(
        d.validate(&cards).unwrap_err(),
        "Too many copies of \"Pit Vipers\" (55 \u{2014} max 4 for Ordinary)."
    );
}

#[test]
fn deck_list_checks_site_copy_limits() {
    let mut cards = catalogue();
    for i in 0..20 {
        cards.push(CardRarity { name: format!("Spell {i}"), rarity: Rarity::Ordinary });
        cards.push(CardRarity { name: format!("Site {i}"), rarity: Rarity::Ordinary });
    }
    let spells: Vec<_> = (0..15).map(|i| line(4, &format!("Spell {i}"))).collect();
    let mut sites: Vec<_> = (0..8).map(|i| line(4, &format!("Site {i}"))).collect();
    let d = DeckList {
        name: "Ok".to_string(),
        sites: sites.clone(),
        spells: spells.clone(),
        avatar: "Sorcerer".to_string(),
    };
    assert_eq!(d.validate(&cards), Ok(()));
    sites.push(line(2, "Cornerstone"));
    let d = DeckList { name: "Ok".to_string(), sites, spells, avatar: "Sorcerer".to_string() };
    assert_eq!(
        d.validate(&cards).unwrap_err(),
        "Too many copies of site \"Cornerstone\" (2 \u{2014} max 1 for Unique)."
    );
}

fn ids(n: usize) -> Vec<uuid::Uuid> {
    (0..n).map(|_| uuid::Uuid::new_v4()).collect()
}

#[test]
fn rotating_moves_the_top_card_to_the_bottom() {
    let sites = ids(4);
    let spells = ids(3);
    let avatar = uuid::Uuid::new_v4();
    let player = uuid::Uuid::new_v4();
    let mut deck = Deck::new(&player, "Deck".to_string(), sites.clone(), spells.clone(), avatar);
    assert_eq!(deck.peek_site(), Some(&sites[3]));
    deck.rotate_sites(1);
    assert_eq!(deck.sites, vec![sites[3], sites[0], sites[1], sites[2]]);
    assert_eq!(deck.peek_site(), Some(&sites[2]));
    deck.rotate_sites(3);
    assert_eq!(deck.sites, sites);
    deck.rotate_spells(5);
    assert_eq!(deck.spells, vec![spells[1], spells[2], spells[0]]);
    assert_eq!(deck.peek_spell(), Some(&spells[0]));
}

#[test]
fn empty_piles_have_no_top() {
    let player = uuid::Uuid::new_v4();
    let mut deck = Deck::new(&player, "Empty".to_string(), vec![], vec![], uuid::Uuid::new_v4());
    assert_eq!(deck.peek_site(), None);
    assert_eq!(deck.peek_spell(), None);
    deck.rotate_sites(3);
    assert!(deck.sites.is_empty());
}

#[test]
fn shuffling_keeps_the_cards() {
    let sites = ids(30);
    let spells = ids(60);
    let player = uuid::Uuid::new_v4();
    let avatar = uuid::Uuid::new_v4();
    let mut deck = Deck::new(&player, "Deck".to_string(), sites.clone(), spells.clone(), avatar);
    deck.shuffle();
    let mut a = deck.sites.clone();
    let mut b = sites.clone();
    a.sort();
    b.sort();
    assert_eq!(a, b);
    let mut a = deck.spells.clone();
    let mut b = spells.clone();
    a.sort();
    b.sort();
    assert_eq!(a, b);
    assert_eq!(deck.avatar, avatar);
    assert_eq!(deck.player_id, player);
}

#[test]
fn precon_and_deck_choice_names() {
    assert_eq!(PreconDeck::BetaFire.name(), "Beta - Fire");
    assert_eq!(PreconDeck::BetaAir.name(), "Beta - Air");
    assert_eq!(PreconDeck::BetaEarth.name(), "Beta - Earth");
    assert_eq!(PreconDeck::BetaWater.name(), "Beta - Water");
    assert_eq!(DeckChoice::Precon(PreconDeck::BetaWater).name(), "Beta - Water");
    let custom = DeckList {
        name: "Mine".to_string(),
        sites: vec![],
        spells: vec![],
        avatar: "Sorcerer".to_string(),
    };
    assert_eq!(DeckChoice::Custom(custom).name(), "Mine");
}
