//! Deck-level operations: bulk encryption, permutation, and the dealing split.
use vstd::prelude::*;

use crate::Error;
use crate::bignum::{pow_mod_spec, sort_uints, uval, uvals};
use crate::crypt::{Key, encrypt};
use crypto_bigint::BoxedUint;

verus! {

/// Encrypt every card of a deck with one player's key; order is preserved,
/// and a card at or above the modulus is rejected with `EncodingOutOfRange`.
pub fn encrypt_deck(deck: &Vec<BoxedUint>, key: &Key) -> (r: Result<Vec<BoxedUint>, Error>)
    requires
        key.wf(),
    ensures
        match r {
            Ok(v) => v@.len() == deck@.len() && (forall|i: int|
                0 <= i < deck@.len() ==> #[trigger] uval(deck@[i]) < key.n_val()) && (forall|i: int|
                0 <= i < deck@.len() ==> #[trigger] uval(v@[i]) == pow_mod_spec(
                    uval(deck@[i]),
                    key.e_val(),
                    key.n_val(),
                )),
            Err(er) => er == Error::EncodingOutOfRange && exists|i: int|
                0 <= i < deck@.len() && #[trigger] uval(deck@[i]) >= key.n_val(),
        },
{
    let mut out: Vec<BoxedUint> = Vec::new();
    let mut i: usize = 0;
    while i < deck.len()
        invariant
            key.wf(),
            i <= deck@.len(),
            out@.len() == i,
            forall|j: int| 0 <= j < i ==> #[trigger] uval(deck@[j]) < key.n_val(),
            forall|j: int| 0 <= j < i ==> #[trigger] uval(out@[j]) == pow_mod_spec(
                uval(deck@[j]),
                key.e_val(),
                key.n_val(),
            ),
        decreases deck@.len() - i,
    {
        match encrypt(&deck[i], key) {
            Ok(c) => out.push(c),
            Err(er) => {
                return Err(er);
            },
        }
        i = i + 1;
    }
    Ok(out)
}

/// Reorder the deck by sorting the ciphertexts numerically — a deterministic
/// stand-in for a random permutation known only to the shuffling player; the
/// deck's contents are unchanged as a multiset.
pub fn permute(deck: &mut Vec<BoxedUint>)
    ensures
        final(deck)@.len() == old(deck)@.len(),
        uvals(final(deck)@).to_multiset() == uvals(old(deck)@).to_multiset(),
{
    sort_uints(deck);
}

/// Remove the first `h` cards of the deck: the dealt hand and the remaining
/// deck, both in their original order. A deck with fewer than `h` cards is
/// rejected with `DeckExhausted`.
pub fn deal_split(deck: Vec<BoxedUint>, h: usize) -> (r: Result<
    (Vec<BoxedUint>, Vec<BoxedUint>),
    Error,
>)
    ensures
        match r {
            Ok(pair) => deck@.len() >= h && pair.0@ == deck@.subrange(0, h as int) && pair.1@
                == deck@.subrange(h as int, deck@.len() as int),
            Err(er) => er == Error::DeckExhausted && deck@.len() < h,
        },
{
    if deck.len() < h {
        return Err(Error::DeckExhausted);
    }
    let mut hand = deck;
    let rest = hand.split_off(h);
    Ok((hand, rest))
}

} // verus!
