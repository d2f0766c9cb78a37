//! The card codec: bijection, range, and fixed-point avoidance.
use crypto_bigint::BoxedUint;
use mental_poker::Error;
use mental_poker::cards::{Card, Color, Value};
use mental_poker::codec::{card_from_uint, card_to_uint, decode_card, encode_card};

fn all_cards() -> Vec<Card> {
    let mut cards = Vec::new();
    for c in Color::iter() {
        for v in Value::iter() {
            cards.push(Card(c, v));
        }
    }
    cards
}

#[test]
fn codec_round_trips_all_52_cards() {
    let cards = all_cards();
    assert_eq!(cards.len(), 52);
    for card in &cards {
        let code = encode_card(card);
        assert_eq!(decode_card(code), Ok(*card));
    }
}

#[test]
fn encodings_are_pairwise_distinct_and_in_range() {
    let cards = all_cards();
    let mut codes: Vec<u64> = cards.iter().map(encode_card).collect();
    codes.sort_unstable();
    for pair in codes.windows(2) {
        assert!(pair[0] < pair[1]);
    }
    for code in &codes {
        assert!(2 <= *code && *code < 54);
    }
}

#[test]
fn fixed_points_zero_and_one_are_never_encodings() {
    for card in &all_cards() {
        let code = encode_card(card);
        assert_ne!(code, 0);
        assert_ne!(code, 1);
    }
    assert_eq!(decode_card(0), Err(Error::EncodingOutOfRange));
    assert_eq!(decode_card(1), Err(Error::EncodingOutOfRange));
}

#[test]
fn out_of_range_codes_are_rejected() {
    assert_eq!(decode_card(54), Err(Error::EncodingOutOfRange));
    assert_eq!(decode_card(1000), Err(Error::EncodingOutOfRange));
    assert!(decode_card(2).is_ok());
    assert!(decode_card(53).is_ok());
}

#[test]
fn specific_encodings_match_the_fixed_order() {
    assert_eq!(encode_card(&Card(Color::Diamonds, Value::Two)), 2);
    assert_eq!(encode_card(&Card(Color::Diamonds, Value::Ace)), 14);
    assert_eq!(encode_card(&Card(Color::Hearts, Value::Two)), 15);
    assert_eq!(encode_card(&Card(Color::Clubs, Value::Ace)), 53);
    assert_eq!(
        decode_card(53),
        Ok(Card(Color::Clubs, Value::Ace))
    );
}

#[test]
fn uint_conversions_round_trip() {
    for card in &all_cards() {
        let u = card_to_uint(card);
        assert_eq!(card_from_uint(&u), Ok(*card));
    }
    assert_eq!(
        card_from_uint(&BoxedUint::from(0u64)),
        Err(Error::EncodingOutOfRange)
    );
    assert_eq!(
        card_from_uint(&BoxedUint::from(1u64)),
        Err(Error::EncodingOutOfRange)
    );
    assert_eq!(
        card_from_uint(&BoxedUint::from(54u64)),
        Err(Error::EncodingOutOfRange)
    );
}
