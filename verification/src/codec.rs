//! Bijection between cards and plaintext integers.
//!
//! Each card maps to a small unique index shifted by a fixed offset of 2, so
//! that the plaintexts 0 and 1 — the fixed points of modular exponentiation —
//! can never stand for a card.
use vstd::prelude::*;

use crate::Error;
use crate::bignum::{uint_from_u64, uint_low_u64, uint_lt, uval};
use crate::cards::{Card, Color, Value, color_index, color_of_index, value_index, value_of_index};
use crypto_bigint::BoxedUint;

verus! {

/// The smallest integer that encodes a card.
pub const CODE_OFFSET: u64 = 2;

/// How many distinct cards there are.
pub const DECK_SIZE: u64 = 52;

/// The plaintext integer that stands for a card.
pub open spec fn spec_encode(c: Card) -> nat {
    13 * color_index(c.0) + value_index(c.1) + 2
}

/// The card, if any, that a plaintext integer stands for.
pub open spec fn spec_decode(x: nat) -> Option<Card> {
    if 2 <= x < 54 {
        Some(Card(color_of_index((x - 2) as nat / 13), value_of_index((x - 2) as nat % 13)))
    } else {
        None
    }
}

/// Encode a card as its plaintext integer, always in `[2, 54)`.
pub fn encode_card(c: &Card) -> (r: u64)
    ensures
        r as nat == spec_encode(*c),
        2 <= r < 54,
{
    let color: u64 = match c.0 {
        Color::Diamonds => 0,
        Color::Hearts => 1,
        Color::Spades => 2,
        Color::Clubs => 3,
    };
    let value: u64 = match c.1 {
        Value::Two => 0,
        Value::Three => 1,
        Value::Four => 2,
        Value::Five => 3,
        Value::Six => 4,
        Value::Seven => 5,
        Value::Eight => 6,
        Value::Nine => 7,
        Value::Ten => 8,
        Value::Jack => 9,
        Value::Queen => 10,
        Value::King => 11,
        Value::Ace => 12,
    };
    13 * color + value + 2
}

/// Decode a plaintext integer back into a card; integers outside the 52 valid
/// encodings are rejected with `EncodingOutOfRange`.
pub fn decode_card(x: u64) -> (r: Result<Card, Error>)
    ensures
        match r {
            Ok(c) => spec_decode(x as nat) == Some(c) && spec_encode(c) == x as nat,
            Err(e) => e == Error::EncodingOutOfRange && spec_decode(x as nat) is None,
        },
{
    if x < 2 || x >= 54 {
        return Err(Error::EncodingOutOfRange);
    }
    let idx = x - 2;
    let ci = idx / 13;
    let vi = idx % 13;
    let color = if ci == 0 {
        Color::Diamonds
    } else if ci == 1 {
        Color::Hearts
    } else if ci == 2 {
        Color::Spades
    } else {
        Color::Clubs
    };
    let value = if vi == 0 {
        Value::Two
    } else if vi == 1 {
        Value::Three
    } else if vi == 2 {
        Value::Four
    } else if vi == 3 {
        Value::Five
    } else if vi == 4 {
        Value::Six
    } else if vi == 5 {
        Value::Seven
    } else if vi == 6 {
        Value::Eight
    } else if vi == 7 {
        Value::Nine
    } else if vi == 8 {
        Value::Ten
    } else if vi == 9 {
        Value::Jack
    } else if vi == 10 {
        Value::Queen
    } else if vi == 11 {
        Value::King
    } else {
        Value::Ace
    };
    let card = Card(color, value);
    proof {
        lemma_code_splits(color_index(card.0), value_index(card.1));
    }
    Ok(card)
}

/// Encode a card as the arbitrary-precision plaintext the cipher operates on.
pub fn card_to_uint(c: &Card) -> (r: BoxedUint)
    ensures
        uval(r) == spec_encode(*c),
        uval(r) < 54,
{
    uint_from_u64(encode_card(c))
}

/// Decode an arbitrary-precision plaintext back into a card; values outside
/// the 52 valid encodings are rejected with `EncodingOutOfRange`.
pub fn card_from_uint(x: &BoxedUint) -> (r: Result<Card, Error>)
    ensures
        match r {
            Ok(c) => spec_decode(uval(*x)) == Some(c) && spec_encode(c) == uval(*x),
            Err(er) => er == Error::EncodingOutOfRange && spec_decode(uval(*x)) is None,
        },
{
    let bound = uint_from_u64(54);
    if !uint_lt(x, &bound) {
        return Err(Error::EncodingOutOfRange);
    }
    decode_card(uint_low_u64(x))
}

/// `13 * a + b` splits back into `a` and `b` when `b < 13`.
proof fn lemma_code_splits(a: nat, b: nat)
    requires
        b < 13,
    ensures
        (13 * a + b) / 13 == a,
        (13 * a + b) % 13 == b,
{
    vstd::arithmetic::div_mod::lemma_div_multiples_vanish_fancy(a as int, b as int, 13);
    vstd::arithmetic::div_mod::lemma_mod_multiples_vanish(a as int, b as int, 13);
    vstd::arithmetic::div_mod::lemma_small_mod(b, 13);
}

/// Every integer in the valid range decodes to a card whose encoding is that
/// integer: the converse direction of the bijection.
pub proof fn lemma_decode_encode(x: nat)
    requires
        2 <= x < 54,
    ensures
        match spec_decode(x) {
            Some(c) => spec_encode(c) == x,
            None => false,
        },
{
    let q = (x - 2) as nat / 13;
    let r = (x - 2) as nat % 13;
    vstd::arithmetic::div_mod::lemma_fundamental_div_mod((x - 2) as int, 13);
    vstd::arithmetic::div_mod::lemma_mod_bound((x - 2) as int, 13);
    assert(q <= 3) by {
        vstd::arithmetic::div_mod::lemma_div_is_ordered((x - 2) as int, 51, 13);
    }
    assert(color_index(color_of_index(q)) == q);
    assert(value_index(value_of_index(r)) == r);
}

/// The codec is a bijection: decoding an encoding returns the card itself,
/// encoding is injective, and every encoding lies in `[2, 54)` — in particular
/// the fixed points 0 and 1 of modular exponentiation never encode a card.
pub proof fn lemma_codec_bijection()
    ensures
        forall|c: Card| #[trigger] spec_decode(spec_encode(c)) == Some(c),
        forall|c1: Card, c2: Card| spec_encode(c1) == spec_encode(c2) ==> c1 == c2,
        forall|c: Card| 2 <= #[trigger] spec_encode(c) < 54,
{
    assert forall|c: Card| #[trigger] spec_decode(spec_encode(c)) == Some(c) by {
        lemma_code_splits(color_index(c.0), value_index(c.1));
        assert(color_of_index(color_index(c.0)) == c.0);
        assert(value_of_index(value_index(c.1)) == c.1);
    }
    assert forall|c1: Card, c2: Card| spec_encode(c1) == spec_encode(c2) implies c1 == c2 by {
        assert(spec_decode(spec_encode(c1)) == Some(c1));
        assert(spec_decode(spec_encode(c2)) == Some(c2));
    }
}

} // verus!
