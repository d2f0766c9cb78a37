//! Deck operations, the deal state machine, access control, and the
//! end-to-end round trip.
use crypto_bigint::BoxedUint;
use crypto_primes::Flavor;
use mental_poker::Error;
use mental_poker::cards::{Card, Color, Value};
use mental_poker::crypt::{Key, encrypt, gen_sra_key, strip_layer};
use mental_poker::proto::{DealProtocol, Phase, respond_key_request, reveal_hand, run_deal};
use mental_poker::shuffle::{deal_split, encrypt_deck, permute};

fn uint(v: u64) -> BoxedUint {
    BoxedUint::from(v)
}

fn small_key() -> Key {
    // n = 3 * 5, phi = 8, e = d = 3.
    Key::new(uint(15), uint(3), uint(3)).unwrap()
}

fn random_keys(m: usize) -> Vec<Key> {
    let mut rng = getrandom::rand_core::UnwrapErr(getrandom::SysRng);
    let p: BoxedUint = crypto_primes::random_prime(&mut rng, Flavor::Any, 96);
    let q: BoxedUint = crypto_primes::random_prime(&mut rng, Flavor::Any, 96);
    let mut keys = Vec::new();
    for _ in 0..m {
        keys.push(gen_sra_key(&p, &q).unwrap());
    }
    keys
}

#[test]
fn permute_keeps_the_contents() {
    let mut deck = vec![uint(9), uint(4), uint(7), uint(4)];
    permute(&mut deck);
    assert_eq!(deck.len(), 4);
    let mut values: Vec<BoxedUint> = deck.clone();
    values.sort_unstable();
    assert_eq!(values, vec![uint(4), uint(4), uint(7), uint(9)]);
}

#[test]
fn encrypt_deck_maps_every_card() {
    let key = small_key();
    let deck = vec![uint(2), uint(3), uint(4)];
    let out = encrypt_deck(&deck, &key).unwrap();
    assert_eq!(out.len(), 3);
    for (plain, cipher) in deck.iter().zip(out.iter()) {
        assert_eq!(*cipher, encrypt(plain, &key).unwrap());
    }
    let bad = vec![uint(2), uint(15)];
    assert!(matches!(
        encrypt_deck(&bad, &key),
        Err(Error::EncodingOutOfRange)
    ));
}

#[test]
fn deal_split_cuts_the_first_cards() {
    let deck = vec![uint(5), uint(6), uint(7), uint(8)];
    let (hand, rest) = deal_split(deck, 2).unwrap();
    assert_eq!(hand, vec![uint(5), uint(6)]);
    assert_eq!(rest, vec![uint(7), uint(8)]);
    assert!(matches!(
        deal_split(vec![uint(5)], 2),
        Err(Error::DeckExhausted)
    ));
}

#[test]
fn oversized_tables_exhaust_the_deck() {
    // 30 players with 2-card hands need 60 of 52 cards.
    assert!(matches!(
        DealProtocol::new(30, 2),
        Err(Error::DeckExhausted)
    ));
    assert!(matches!(DealProtocol::new(53, 1), Err(Error::DeckExhausted)));
    assert!(DealProtocol::new(26, 2).is_ok());
}

#[test]
fn access_control_refuses_unowned_slots() {
    let key = small_key();
    // Slots 0 and 1 belong to player 1, slots 2 and 3 to player 0.
    let record: Vec<usize> = vec![1, 1, 0, 0];
    // Player 1 asks for its own slots: granted, and the disclosed exponent
    // really is the decryption exponent.
    let d = respond_key_request(&record, 1, &vec![0usize, 1], &key).unwrap();
    assert_eq!(strip_layer(&uint(8), &d, &uint(15)).unwrap(), uint(2));
    // Every mismatched (requester, slot) pair is refused.
    for (requester, slots) in [
        (0usize, vec![0usize]),
        (0, vec![1]),
        (1, vec![2]),
        (1, vec![3]),
        (0, vec![2, 1]),
        (1, vec![0, 3]),
    ] {
        assert!(matches!(
            respond_key_request(&record, requester, &slots, &key),
            Err(Error::AccessDenied)
        ));
    }
    // A slot outside the record is refused too.
    assert!(matches!(
        respond_key_request(&record, 0, &vec![4usize], &key),
        Err(Error::AccessDenied)
    ));
}

#[test]
fn reveal_hand_decodes_stripped_ciphertexts() {
    let key = small_key();
    // 2 encrypts to 8 under the small key; one layer to strip.
    let hand = vec![encrypt(&uint(2), &key).unwrap(), encrypt(&uint(4), &key).unwrap()];
    let exponents = vec![uint(3)];
    let cards = reveal_hand(&hand, &exponents, &uint(15)).unwrap();
    assert_eq!(cards.len(), 2);
    assert_eq!(cards[0], Card(Color::Diamonds, Value::Two));
    assert_eq!(cards[1], Card(Color::Diamonds, Value::Four));
    // A plaintext outside the card range is rejected.
    let junk = vec![uint(1)];
    assert!(matches!(
        reveal_hand(&junk, &vec![], &uint(15)),
        Err(Error::EncodingOutOfRange)
    ));
}

#[test]
fn deal_phases_step_through_the_protocol() {
    let keys = random_keys(2);
    let mut st = DealProtocol::new(2, 2).unwrap();
    assert_eq!(st.phase, Phase::Init);
    st.encrypt_layer(&keys[0]).unwrap();
    st.permute_deck();
    assert_eq!(st.phase, Phase::Init);
    st.encrypt_layer(&keys[1]).unwrap();
    st.permute_deck();
    assert_eq!(st.phase, Phase::AllEncrypted);
    st.rotate_next(&keys[0]).unwrap();
    assert_eq!(st.phase, Phase::Rotating);
    assert_eq!(st.deck.len(), 50);
    assert_eq!(st.record, vec![1usize, 1]);
    st.rotate_next(&keys[1]).unwrap();
    assert_eq!(st.phase, Phase::HandsAssigned);
    assert_eq!(st.deck.len(), 48);
    assert_eq!(st.record, vec![1usize, 1, 0, 0]);
}

#[test]
fn two_player_round_trip_deals_disjoint_valid_hands() {
    let keys = random_keys(2);
    let hands = run_deal(&keys, 2).unwrap();
    assert_eq!(hands.len(), 2);

    let mut all_cards: Vec<Card> = Vec::new();
    for c in Color::iter() {
        for v in Value::iter() {
            all_cards.push(Card(c, v));
        }
    }
    let mut seen: Vec<Card> = Vec::new();
    for hand in &hands {
        assert_eq!(hand.len(), 2);
        for card in hand {
            // Every revealed card is one of the 52.
            assert!(all_cards.contains(card));
            // The two hands are disjoint.
            assert!(!seen.contains(card));
            seen.push(*card);
        }
    }
    // The union of both hands has exactly 4 cards.
    assert_eq!(seen.len(), 4);
}

#[test]
fn single_player_deal_reveals_its_own_hand() {
    let keys = random_keys(1);
    let hands = run_deal(&keys, 3).unwrap();
    assert_eq!(hands.len(), 1);
    assert_eq!(hands[0].len(), 3);
}

#[test]
fn run_deal_exhausts_on_oversized_tables() {
    let keys = random_keys(2);
    // 2 players, 27-card hands need 54 of 52 cards.
    assert!(matches!(run_deal(&keys, 27), Err(Error::DeckExhausted)));
}

#[test]
fn three_player_deal_generalizes_the_rotation() {
    let keys = random_keys(3);
    let hands = run_deal(&keys, 2).unwrap();
    assert_eq!(hands.len(), 3);

    let mut all_cards: Vec<Card> = Vec::new();
    for c in Color::iter() {
        for v in Value::iter() {
            all_cards.push(Card(c, v));
        }
    }
    let mut seen: Vec<Card> = Vec::new();
    for hand in &hands {
        assert_eq!(hand.len(), 2);
        for card in hand {
            assert!(all_cards.contains(card));
            assert!(!seen.contains(card));
            seen.push(*card);
        }
    }
    assert_eq!(seen.len(), 6);
}
