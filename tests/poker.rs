use exercises::poker::{
    compare, parse_card, parse_hand, parse_suit, parse_value, rank, try_winning_hands, winning_hands,
    Card, Error, Rank, Suit, Value,
};

#[test]
fn single_hand_wins() {
    assert_eq!(winning_hands(&["4S 5S 7H 8D JC"]), vec!["4S 5S 7H 8D JC"]);
}

#[test]
fn highest_card_wins() {
    let hands = ["4D 5S 6S 8D 3C", "2S 4C 7S 9H 10H", "3S 4S 5D 6H JH"];
    assert_eq!(winning_hands(&hands), vec!["3S 4S 5D 6H JH"]);
}

#[test]
fn equal_hands_tie() {
    let hands = ["4D 5S 6S 8D 3C", "2S 4C 7S 9H 10H", "3S 4S 5D 6H JH", "3H 4H 5C 6C JD"];
    assert_eq!(winning_hands(&hands), vec!["3S 4S 5D 6H JH", "3H 4H 5C 6C JD"]);
}

#[test]
fn weaker_hands_do_not_change_the_winners() {
    let hands = ["3S 4S 5D 6H JH", "2S 4C 7S 9H 10H"];
    assert_eq!(winning_hands(&hands), vec!["3S 4S 5D 6H JH"]);
    let hands = ["2S 4C 7S 9H 10H", "3S 4S 5D 6H JH", "2D 3C 4H 6S 8D", "3H 4H 5C 6C JD"];
    assert_eq!(winning_hands(&hands), vec!["3S 4S 5D 6H JH", "3H 4H 5C 6C JD"]);
}

#[test]
fn categories_beat_each_other() {
    assert_eq!(winning_hands(&["4S 5H 6C 8D KH", "2S 4H 6S 4D JH"]), vec!["2S 4H 6S 4D JH"]);
    assert_eq!(winning_hands(&["2S 8H 2D 8D 3H", "4S 5H 4C 8S 5D"]), vec!["2S 8H 2D 8D 3H"]);
    assert_eq!(winning_hands(&["2S 2H 8D 8C 3H", "4S 5H 4C 8S 4H"]), vec!["4S 5H 4C 8S 4H"]);
    assert_eq!(winning_hands(&["4S 5H 4C 8D 4H", "3S 4D 2S 6D 5C"]), vec!["3S 4D 2S 6D 5C"]);
    assert_eq!(winning_hands(&["4C 6H 7D 8D 5H", "2S 4S 5S 6S 7S"]), vec!["2S 4S 5S 6S 7S"]);
    assert_eq!(winning_hands(&["3H 6H 7H 8H 5H", "4S 5H 4C 5D 4H"]), vec!["4S 5H 4C 5D 4H"]);
    assert_eq!(winning_hands(&["4S 5H 4D 5D 4H", "3S 3H 2S 3D 3C"]), vec!["3S 3H 2S 3D 3C"]);
    assert_eq!(winning_hands(&["4S 4H 4D 4C 5H", "7S 8S 9S 6S 10S"]), vec!["7S 8S 9S 6S 10S"]);
}

#[test]
fn ace_can_start_or_end_a_straight() {
    assert_eq!(winning_hands(&["4S 5H 4C 8D 4H", "4D AH 3S 2D 5C"]), vec!["4D AH 3S 2D 5C"]);
    assert_eq!(winning_hands(&["4D AH 3S 2D 5C", "6S 3C 4H 2S 5D"]), vec!["6S 3C 4H 2S 5D"]);
    let c = [
        Card::new(Suit::Diamond, Value::Ten),
        Card::new(Suit::Heart, Value::Jack),
        Card::new(Suit::Spade, Value::Queen),
        Card::new(Suit::Diamond, Value::King),
        Card::new(Suit::Club, Value::Ace),
    ];
    assert_eq!(rank(&c), Rank::Straight(Value::Ace));
    assert_eq!(
        winning_hands(&["10D JH QS KD AC", "9D 10H JS QD KC"]),
        vec!["10D JH QS KD AC"]
    );
    let wheel = parse_hand("4D AH 3S 2D 5C").unwrap();
    assert_eq!(rank(&wheel), Rank::Straight(Value::Five));
    let royal = [
        Card::new(Suit::Club, Value::Ten),
        Card::new(Suit::Club, Value::Jack),
        Card::new(Suit::Club, Value::Queen),
        Card::new(Suit::Club, Value::King),
        Card::new(Suit::Club, Value::Ace),
    ];
    assert_eq!(rank(&royal), Rank::RoyalStraightFlush);
    assert_eq!(compare(&rank(&royal), &rank(&c)), 1);
    assert_eq!(compare(&rank(&c), &rank(&royal)), -1);
}

#[test]
fn ranks_break_ties_in_order() {
    let hand = parse_hand("2S 2H 8D 8C 3H").unwrap();
    assert_eq!(rank(&hand), Rank::TwoPair([Value::Eight, Value::Two, Value::Three]));
    let hand = parse_hand("3S 3H 3D 9C 9H").unwrap();
    assert_eq!(rank(&hand), Rank::FullHouse([Value::Three, Value::Nine]));
    let hand = parse_hand("kd 2c 2h 7s 4d").unwrap();
    assert_eq!(rank(&hand), Rank::Pair([Value::Two, Value::King, Value::Seven, Value::Four]));
    let hand = parse_hand("KD 2C 9H 7S 4D").unwrap();
    assert_eq!(
        rank(&hand),
        Rank::HighCard([Value::King, Value::Nine, Value::Seven, Value::Four, Value::Two])
    );
}

#[test]
fn reading_cards() {
    assert_eq!(parse_suit("h"), Ok(Suit::Heart));
    assert_eq!(parse_suit("S"), Ok(Suit::Spade));
    assert_eq!(parse_suit("x"), Err(Error::BadSuit("x".to_string())));
    assert_eq!(parse_value("10"), Ok(Value::Ten));
    assert_eq!(parse_value("Q"), Ok(Value::Queen));
    assert_eq!(parse_value("1"), Err(Error::BadValue("1".to_string())));
    let card = parse_card("10h").unwrap();
    assert_eq!(card.suit(), Suit::Heart);
    assert_eq!(card.value(), Value::Ten);
    assert_eq!(parse_card("ABCD"), Err(Error::BadCard("invalid length".to_string())));
    assert_eq!(parse_card("1H"), Err(Error::BadValue("1".to_string())));
    assert_eq!(parse_card("1X"), Err(Error::BadSuit("X".to_string())));
    assert_eq!(parse_hand("4S 5S"), Err(Error::BadCard("invalid number of cards".to_string())));
    assert_eq!(parse_hand("4S 5S ZZ 6S 7S"), Err(Error::BadSuit("Z".to_string())));
}

#[test]
fn checked_winning_hands() {
    assert_eq!(try_winning_hands(&[]), None);
    assert_eq!(try_winning_hands(&["4S 5S 7H 8D"]), None);
    assert_eq!(try_winning_hands(&["4S 4S 4S 4S 4S"]), None);
    assert_eq!(
        try_winning_hands(&["4S 5H 6C 8D KH", "2S 4H 6S 4D JH"]),
        Some(vec!["2S 4H 6S 4D JH"])
    );
}
