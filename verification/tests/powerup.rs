use redis_game::powerup::{
    all_powerups, click_due, Powerup, PowerupDeck, PressKey, AUTOCLICK_PAUSE,
};

#[test]
fn rows_reach_every_second_row() {
    let p = Powerup::Rows;
    assert!(p.hovered((3, 4), (0, 2), false));
    assert!(p.hovered((3, 4), (9, 4), false));
    assert!(!p.hovered((3, 4), (3, 5), true));
}

#[test]
fn columns_reach_every_second_column() {
    let p = Powerup::Columns;
    assert!(p.hovered((3, 4), (1, 7), false));
    assert!(!p.hovered((3, 4), (2, 4), true));
}

#[test]
fn rows_columns_reach_both() {
    let p = Powerup::RowsColumns;
    assert!(p.hovered((3, 4), (1, 7), false));
    assert!(p.hovered((3, 4), (2, 6), false));
    assert!(!p.hovered((3, 4), (2, 5), true));
}

#[test]
fn autoclick_reaches_the_cell_under_the_pointer() {
    let p = Powerup::Autoclick;
    assert!(p.hovered((3, 4), (3, 4), false));
    assert!(!p.hovered((3, 4), (4, 3), true));
    assert!(!p.hovered((3, 4), (3, 5), true));
}

#[test]
fn random_reaches_the_lucky_cells() {
    let p = Powerup::Random;
    assert!(p.hovered((0, 0), (9, 9), true));
    assert!(!p.hovered((0, 0), (0, 0), false));
}

#[test]
fn powerups_have_numbers() {
    assert_eq!(Powerup::from_primitive(0), Powerup::Rows);
    assert_eq!(Powerup::from_primitive(1), Powerup::Columns);
    assert_eq!(Powerup::from_primitive(2), Powerup::RowsColumns);
    assert_eq!(Powerup::from_primitive(3), Powerup::Random);
    assert_eq!(Powerup::from_primitive(4), Powerup::Autoclick);
    assert_eq!(Powerup::from_primitive(5), Powerup::Rows);
    assert_eq!(Powerup::from_primitive(255), Powerup::Rows);
    assert_eq!(Powerup::default(), Powerup::Rows);
}

#[test]
fn there_are_five_powerups() {
    assert_eq!(
        all_powerups(),
        vec![
            Powerup::Rows,
            Powerup::Columns,
            Powerup::RowsColumns,
            Powerup::Random,
            Powerup::Autoclick,
        ]
    );
}

#[test]
fn every_hand_of_five_holds_each_powerup_once() {
    let mut deck = PowerupDeck::new();
    let mut orders = Vec::new();
    for _ in 0..40 {
        let mut hand = Vec::new();
        for _ in 0..5 {
            hand.push(deck.next_powerup());
        }
        for powerup in all_powerups() {
            assert_eq!(hand.iter().filter(|p| **p == powerup).count(), 1);
        }
        orders.push(hand);
    }
    // forty shuffles that all come out the same would be no shuffle
    assert!(orders.iter().any(|hand| *hand != orders[0]));
}

#[test]
fn a_reached_cell_is_clicked_by_key_or_pointer() {
    assert!(click_due(true, true, false, None, 0));
    assert!(click_due(true, false, true, None, 0));
    assert!(click_due(true, true, true, Some(Powerup::Rows), 0));
    assert!(!click_due(true, false, false, None, 1_000));
    assert!(!click_due(false, true, true, Some(Powerup::Autoclick), 1_000));
}

#[test]
fn the_autoclick_waits_longer_than_its_pause() {
    assert_eq!(AUTOCLICK_PAUSE, 50);
    assert!(!click_due(true, false, false, Some(Powerup::Autoclick), 50));
    assert!(click_due(true, false, false, Some(Powerup::Autoclick), 51));
    assert!(!click_due(true, false, false, Some(Powerup::Random), 51));
}

#[test]
fn a_held_key_clicks_once() {
    let mut key = PressKey::new();
    assert!(!key.update(false));
    assert!(key.update(true));
    assert!(!key.update(true));
    assert!(!key.update(true));
    assert!(!key.update(false));
    assert!(key.update(true));
}
