use libmtg::colors::Color;
use libmtg::land::{LandCardInfo, LandType};
use libmtg::mana::Mana;
use libmtg::mtgjson::{MtgError, Rarity};

fn land(name: &str, subtypes: &[&str], landtype: LandType, produces: Vec<Color>) -> LandCardInfo {
    LandCardInfo {
        name: name.to_string(),
        short: String::new(),
        cardtype: "Land".to_string(),
        subtypes: subtypes.iter().map(|s| s.to_string()).collect(),
        landtype,
        produces,
    }
}

#[test]
fn rarity_names() {
    assert_eq!(Rarity::parse("Mythic Rare"), Ok(Rarity::Mythic));
    assert_eq!(Rarity::parse("Rare"), Ok(Rarity::Rare));
    assert_eq!(Rarity::parse("Uncommon"), Ok(Rarity::Uncommon));
    assert_eq!(Rarity::parse("Common"), Ok(Rarity::Common));
    assert_eq!(Rarity::parse("Special"), Ok(Rarity::Special));
    assert_eq!(Rarity::parse("Basic Land"), Ok(Rarity::BasicLand));
    assert_eq!(Rarity::parse("rare"), Err(MtgError::General("rare".to_string())));
    assert_eq!(Rarity::Mythic.short(), "M");
    assert_eq!(Rarity::BasicLand.short(), "L");
    assert_eq!(Rarity::Special.short(), "S");
}

#[test]
fn color_names() {
    assert_eq!(Color::parse("White"), Color::W);
    assert_eq!(Color::parse("Blue"), Color::U);
    assert_eq!(Color::parse("Black"), Color::B);
    assert_eq!(Color::parse("Red"), Color::R);
    assert_eq!(Color::parse("Green"), Color::G);
    assert_eq!(Color::parse("Colorless"), Color::C);
}

#[test]
fn mana_costs() {
    assert_eq!(Mana::parse("{2}{W}{U}"), Mana::new(1, 1, 0, 0, 0, 0, 2, 0));
    assert_eq!(Mana::parse("{X}{X}{R}"), Mana::new(0, 0, 0, 1, 0, 0, 0, 2));
    assert_eq!(Mana::parse("{10}{G}{G}{C}"), Mana::new(0, 0, 0, 0, 2, 1, 10, 0));
    assert_eq!(Mana::parse(""), Mana::zero());
    assert_eq!(Mana::parse("{Q}{W/U}{1"), Mana::zero());
    assert_eq!(Mana::parse("{{B}}"), Mana::b(1));
    assert_eq!(Mana::parse("{99999999999}{B}"), Mana::b(1));
    assert_eq!(Mana::parse("{007}"), Mana::n(7));
}

#[test]
fn land_cards() {
    let plains = land("Plains", &["Plains"], LandType::BasicLand, vec![Color::W]);
    let strand = land("Flooded Strand", &[], LandType::FetchLand, vec![Color::W, Color::U]);
    let tapped = land("Tapped Fetch", &[], LandType::TappedFetchLand, vec![Color::W]);
    assert_eq!(plains.show(), "Plains");
    assert!(plains.untapped());
    assert!(strand.untapped());
    assert!(!tapped.untapped());
    assert!(!land("Guildgate", &[], LandType::Gates, vec![]).untapped());
}

#[test]
fn land_sources() {
    let plains = land("Plains", &["Plains"], LandType::BasicLand, vec![Color::W]);
    let island = land("Island", &["Island"], LandType::BasicLand, vec![Color::U]);
    let fountain = land(
        "Hallowed Fountain",
        &["Plains", "Island"],
        LandType::ShockLand,
        vec![Color::W, Color::U],
    );
    let strand = land("Flooded Strand", &[], LandType::FetchLand, vec![Color::W, Color::U]);
    let marsh = land("Marsh Fetch", &[], LandType::FetchLand, vec![Color::B]);
    let deck: Vec<(&LandCardInfo, u32)> = vec![(&plains, 4), (&island, 0), (&fountain, 2), (&strand, 4)];
    assert_eq!(plains.source(&deck), Mana::w(1));
    assert_eq!(fountain.source(&deck), Mana::new(1, 1, 0, 0, 0, 0, 0, 0));
    // the strand finds plains and the fountain: white and blue
    assert_eq!(strand.source(&deck), Mana::new(1, 1, 0, 0, 0, 0, 0, 0));
    // no swamp in the deck: nothing to fetch
    assert_eq!(marsh.source(&deck), Mana::zero());
    let only_island: Vec<(&LandCardInfo, u32)> = vec![(&island, 0)];
    assert_eq!(strand.source(&only_island), Mana::zero());
}
