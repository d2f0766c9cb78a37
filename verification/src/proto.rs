//! The multi-party deal protocol: shuffle layers, the rotating hand-off, the
//! public deal record with its access-controlled key disclosure, and the
//! reveal of a hand back into cards.
use vstd::prelude::*;

use crate::Error;
use crate::bignum::{pow_mod_spec, uint_from_u64, uint_lt, uval, uvals};
use crate::cards::Card;
use crate::codec::{card_from_uint, lemma_decode_encode, spec_decode, spec_encode};
use crate::crypt::{Key, decrypt, inverts, strip_layer};
use crate::shuffle::{encrypt_deck, permute};
use crypto_bigint::BoxedUint;

verus! {

/// The wire messages players exchange: the deck hand-offs of the shuffle and
/// rotation phases, and the key request and response of the reveal phase.
pub enum Package {
    /// The full (partially encrypted) deck, forwarded to the next player.
    Shuffle { deck: Vec<BoxedUint> },
    /// One dealt hand of ciphertexts, delivered to its owner.
    Hand { cards: (BoxedUint, BoxedUint) },
    /// A hand owner asks the other players for their decryption exponents,
    /// scoped to its own slots of the public deal record.
    KeyRequest { requester: usize, slots: Vec<usize> },
    /// A responder discloses its decryption exponent for a valid request.
    KeyResponse { exponent: BoxedUint },
}

/// The stations of the deal, from the fresh deck to the terminal state.
#[derive(Debug, Clone, Copy, PartialEq, Eq, Structural)]
pub enum Phase {
    /// Plaintext deck; players are still adding their encryption layers.
    Init,
    /// Every player has contributed exactly one layer.
    AllEncrypted,
    /// Hands are being cut and handed around the table.
    Rotating,
    /// Every player holds its hand of ciphertexts.
    HandsAssigned,
    /// A hand owner has broadcast a request for foreign exponents.
    RevealRequested,
    /// The requester has recovered its plaintext hand.
    Revealed,
    /// All hands are revealed.
    Done,
}

/// The player that receives the hand cut at rotation step `i`: the next
/// player around the table after the cutter, which is player `i` itself.
pub open spec fn owner_of_step(i: nat, m: nat) -> nat
    recommends
        m > 0,
{
    (i + 1) % m
}

/// One round's deal, driven from the fresh deck to the terminal state. Hands
/// are stored in cut order: the hand cut at step `i` belongs to player
/// `owner_of_step(i, m)`.
pub struct DealProtocol {
    /// How many players sit at the table.
    pub m: usize,
    /// How many cards each hand holds.
    pub h: usize,
    /// How many encryption layers the deck carries so far.
    pub layers: usize,
    /// How many hands have been cut so far.
    pub steps: usize,
    /// How many hands have been revealed so far.
    pub revealed: usize,
    /// Where the deal stands.
    pub phase: Phase,
    /// The cards not yet dealt.
    pub deck: Vec<BoxedUint>,
    /// The dealt hands, in cut order.
    pub hands: Vec<Vec<BoxedUint>>,
    /// The public deal record: the owner of every dealt slot.
    pub record: Vec<usize>,
}

impl DealProtocol {
    /// The structural invariant of a deal in progress.
    pub open spec fn wf(&self) -> bool {
        &&& self.m >= 1
        &&& self.steps <= self.m
        &&& self.hands@.len() == self.steps
        &&& self.record@.len() == self.steps * self.h
        &&& forall|s: int|
            0 <= s < self.record@.len() ==> #[trigger] self.record@[s] as nat == owner_of_step(
                (s / self.h as int) as nat,
                self.m as nat,
            )
        &&& forall|i: int| 0 <= i < self.steps ==> #[trigger] self.hands@[i]@.len() == self.h
    }

    /// Open a deal of `m` players with hands of `h` cards over the fresh
    /// 52-card deck; a table that needs more than 52 cards is rejected with
    /// `DeckExhausted`.
    pub fn new(m: usize, h: usize) -> (r: Result<DealProtocol, Error>)
        requires
            m >= 1,
        ensures
            match r {
                Ok(st) => {
                    &&& m as int * h as int <= 52
                    &&& st.wf()
                    &&& st.m == m
                    &&& st.h == h
                    &&& st.layers == 0
                    &&& st.steps == 0
                    &&& st.revealed == 0
                    &&& st.phase == Phase::Init
                    &&& st.deck@.len() == 52
                    &&& forall|i: int|
                        0 <= i < 52 ==> #[trigger] uval(st.deck@[i]) == i + 2
                },
                Err(er) => er == Error::DeckExhausted && m as int * h as int > 52,
            },
    {
        if h != 0 && m > 52 / h {
            proof {
                let hh = h as int;
                let q = 52int / hh;
                vstd::arithmetic::div_mod::lemma_fundamental_div_mod(52, hh);
                vstd::arithmetic::div_mod::lemma_mod_bound(52, hh);
                assert(m as int * hh > 52) by (nonlinear_arith)
                    requires
                        m as int >= q + 1,
                        52 == hh * q + 52int % hh,
                        0 <= 52int % hh < hh,
                ;
            }
            return Err(Error::DeckExhausted);
        }
        proof {
            if h != 0 {
                let hh = h as int;
                let q = 52int / hh;
                vstd::arithmetic::div_mod::lemma_fundamental_div_mod(52, hh);
                vstd::arithmetic::div_mod::lemma_mod_bound(52, hh);
                assert(m as int * hh <= 52) by (nonlinear_arith)
                    requires
                        m as int <= q,
                        52 == hh * q + 52int % hh,
                        0 <= 52int % hh,
                ;
            }
        }
        let mut deck: Vec<BoxedUint> = Vec::new();
        let mut i: usize = 0;
        while i < 52
            invariant
                i <= 52,
                deck@.len() == i,
                forall|j: int| 0 <= j < i ==> #[trigger] uval(deck@[j]) == j + 2,
            decreases 52 - i,
        {
            deck.push(uint_from_u64((i as u64) + 2));
            i = i + 1;
        }
        Ok(
            DealProtocol {
                m,
                h,
                layers: 0,
                steps: 0,
                revealed: 0,
                phase: Phase::Init,
                deck,
                hands: Vec::new(),
                record: Vec::new(),
            },
        )
    }

    /// One player adds its encryption layer over the whole deck. Once every
    /// player has contributed a layer the deal is `AllEncrypted`.
    pub fn encrypt_layer(&mut self, key: &Key) -> (r: Result<(), Error>)
        requires
            old(self).wf(),
            old(self).phase == Phase::Init,
            old(self).layers < old(self).m,
            key.wf(),
        ensures
            match r {
                Ok(()) => {
                    &&& final(self).wf()
                    &&& final(self).layers == old(self).layers + 1
                    &&& final(self).phase == (if old(self).layers + 1 == old(self).m {
                        Phase::AllEncrypted
                    } else {
                        Phase::Init
                    })
                    &&& final(self).deck@.len() == old(self).deck@.len()
                    &&& forall|i: int|
                        0 <= i < old(self).deck@.len() ==> #[trigger] uval(final(self).deck@[i])
                            == pow_mod_spec(uval(old(self).deck@[i]), key.e_val(), key.n_val())
                    &&& forall|i: int|
                        0 <= i < old(self).deck@.len() ==> #[trigger] uval(old(self).deck@[i])
                            < key.n_val()
                    &&& final(self).m == old(self).m && final(self).h == old(self).h && final(self).steps == old(self).steps && final(self).revealed == old(self).revealed
                    &&& final(self).hands == old(self).hands && final(self).record == old(self).record
                },
                Err(er) => er == Error::EncodingOutOfRange && *final(self) == *old(self) && exists|
                    i: int,
                |
                    0 <= i < old(self).deck@.len() && #[trigger] uval(old(self).deck@[i])
                        >= key.n_val(),
            },
    {
        match encrypt_deck(&self.deck, key) {
            Ok(v) => {
                self.deck = v;
                self.layers = self.layers + 1;
                if self.layers == self.m {
                    self.phase = Phase::AllEncrypted;
                }
                Ok(())
            },
            Err(er) => Err(er),
        }
    }

    /// The player that just encrypted reorders the deck by its private
    /// permutation; the deck's contents are unchanged as a multiset.
    pub fn permute_deck(&mut self)
        requires
            old(self).wf(),
            old(self).phase == Phase::Init || old(self).phase == Phase::AllEncrypted,
        ensures
            final(self).wf(),
            final(self).deck@.len() == old(self).deck@.len(),
            uvals(final(self).deck@).to_multiset() == uvals(old(self).deck@).to_multiset(),
            final(self).m == old(self).m && final(self).h == old(self).h && final(self).layers
                == old(self).layers && final(self).steps == old(self).steps && final(self).revealed
                == old(self).revealed && final(self).phase == old(self).phase,
            final(self).hands == old(self).hands && final(self).record == old(self).record,
    {
        permute(&mut self.deck);
    }

    /// One rotation step: the current holder cuts the first `h` cards for the
    /// next player around the table, strips exactly its own layer from them,
    /// and passes the rest of the deck on. After `m` steps every player holds
    /// a hand and the deal is `HandsAssigned`.
    pub fn rotate_next(&mut self, key: &Key) -> (r: Result<(), Error>)
        requires
            old(self).wf(),
            old(self).phase == Phase::AllEncrypted || old(self).phase == Phase::Rotating,
            old(self).steps < old(self).m,
            key.wf(),
        ensures
            match r {
                Ok(()) => {
                    &&& final(self).wf()
                    &&& old(self).deck@.len() >= old(self).h
                    &&& final(self).steps == old(self).steps + 1
                    &&& final(self).phase == (if old(self).steps + 1 == old(self).m {
                        Phase::HandsAssigned
                    } else {
                        Phase::Rotating
                    })
                    &&& final(self).deck@ == old(self).deck@.subrange(
                        old(self).h as int,
                        old(self).deck@.len() as int,
                    )
                    &&& final(self).hands@.len() == old(self).hands@.len() + 1
                    &&& final(self).hands@.subrange(0, old(self).hands@.len() as int) == old(self).hands@
                    &&& final(self).hands@.last()@.len() == old(self).h
                    &&& forall|k: int|
                        0 <= k < old(self).h ==> #[trigger] uval(final(self).hands@.last()@[k])
                            == pow_mod_spec(uval(old(self).deck@[k]), key.d_val(), key.n_val())
                    &&& forall|k: int|
                        0 <= k < old(self).h ==> #[trigger] uval(old(self).deck@[k]) < key.n_val()
                    &&& final(self).record@ == old(self).record@ + Seq::new(
                        old(self).h as nat,
                        |k: int| owner_of_step(old(self).steps as nat, old(self).m as nat) as usize,
                    )
                    &&& final(self).m == old(self).m && final(self).h == old(self).h && final(self).layers == old(self).layers && final(self).revealed == old(self).revealed
                },
                Err(er) => {
                    &&& *final(self) == *old(self)
                    &&& (er == Error::DeckExhausted || er == Error::EncodingOutOfRange)
                    &&& (er == Error::DeckExhausted <==> old(self).deck@.len() < old(self).h)
                    &&& (er == Error::EncodingOutOfRange ==> exists|k: int|
                        0 <= k < old(self).h && k < old(self).deck@.len() && #[trigger] uval(
                            old(self).deck@[k],
                        ) >= key.n_val())
                },
            },
    {
        if self.deck.len() < self.h {
            return Err(Error::DeckExhausted);
        }
        let mut hand: Vec<BoxedUint> = Vec::new();
        let mut k: usize = 0;
        while k < self.h
            invariant
                self == old(self),
                key.wf(),
                k <= self.h,
                self.deck@.len() >= self.h,
                hand@.len() == k,
                forall|j: int| 0 <= j < k ==> #[trigger] uval(self.deck@[j]) < key.n_val(),
                forall|j: int| 0 <= j < k ==> #[trigger] uval(hand@[j]) == pow_mod_spec(
                    uval(self.deck@[j]),
                    key.d_val(),
                    key.n_val(),
                ),
            decreases self.h - k,
        {
            match decrypt(&self.deck[k], key) {
                Ok(c) => hand.push(c),
                Err(er) => {
                    proof {
                        assert(uval(self.deck@[k as int]) >= key.n_val());
                    }
                    return Err(er);
                },
            }
            k = k + 1;
        }
        let owner = (self.steps + 1) % self.m;
        let mut r: usize = 0;
        while r < self.h
            invariant
                self.record@.len() == old(self).record@.len() + r,
                r <= self.h,
                owner as nat == owner_of_step(old(self).steps as nat, old(self).m as nat),
                self.record@.subrange(0, old(self).record@.len() as int) == old(self).record@,
                forall|j: int|
                    old(self).record@.len() <= j < self.record@.len() ==> #[trigger] self.record@[j]
                        == owner,
                self.m == old(self).m && self.h == old(self).h && self.steps == old(self).steps
                    && self.layers == old(self).layers && self.revealed == old(self).revealed
                    && self.phase == old(self).phase && self.deck == old(self).deck && self.hands
                    == old(self).hands,
            decreases self.h - r,
        {
            self.record.push(owner);
            r = r + 1;
        }
        let rest = self.deck.split_off(self.h);
        self.deck = rest;
        self.hands.push(hand);
        self.steps = self.steps + 1;
        if self.steps == self.m {
            self.phase = Phase::HandsAssigned;
        } else {
            self.phase = Phase::Rotating;
        }
        proof {
            assert(final(self).record@ =~= old(self).record@ + Seq::new(
                old(self).h as nat,
                |k: int| owner_of_step(old(self).steps as nat, old(self).m as nat) as usize,
            ));
            assert(final(self).hands@.subrange(0, old(self).hands@.len() as int) =~= old(self).hands@);
            lemma_record_extension(
                old(self).record@,
                final(self).record@,
                old(self).steps as nat,
                old(self).h as nat,
                old(self).m as nat,
            );
        }
        Ok(())
    }

    /// A hand owner opens the reveal sub-protocol by broadcasting the request
    /// for the other players' decryption exponents, scoped to its own slots.
    pub fn request_reveal(&mut self, requester: usize, slots: Vec<usize>) -> (r: Package)
        requires
            old(self).wf(),
            old(self).phase == Phase::HandsAssigned || old(self).phase == Phase::Revealed,
            old(self).revealed < old(self).m,
        ensures
            final(self).wf(),
            final(self).phase == Phase::RevealRequested,
            r == (Package::KeyRequest { requester, slots }),
            *final(self) == (DealProtocol { phase: Phase::RevealRequested, ..*old(self) }),
    {
        self.phase = Phase::RevealRequested;
        Package::KeyRequest { requester, slots }
    }

    /// The requester has recovered its plaintext hand; after the last player
    /// has done so the deal is `Done`.
    pub fn complete_reveal(&mut self)
        requires
            old(self).wf(),
            old(self).phase == Phase::RevealRequested,
            old(self).revealed < old(self).m,
        ensures
            final(self).wf(),
            final(self).revealed == old(self).revealed + 1,
            final(self).phase == (if old(self).revealed + 1 == old(self).m {
                Phase::Done
            } else {
                Phase::Revealed
            }),
            *final(self) == (DealProtocol {
                phase: final(self).phase,
                revealed: (old(self).revealed + 1) as usize,
                ..*old(self)
            }),
    {
        self.revealed = self.revealed + 1;
        if self.revealed == self.m {
            self.phase = Phase::Done;
        } else {
            self.phase = Phase::Revealed;
        }
    }
}

/// Extending a well-formed record by one step's slots keeps every slot's
/// owner equal to the owner of the step that dealt it.
proof fn lemma_record_extension(olds: Seq<usize>, news: Seq<usize>, steps: nat, h: nat, m: nat)
    requires
        m > 0,
        olds.len() == steps * h,
        news.len() == olds.len() + h,
        news.subrange(0, olds.len() as int) == olds,
        forall|s: int|
            0 <= s < olds.len() ==> #[trigger] olds[s] as nat == owner_of_step(
                (s / h as int) as nat,
                m,
            ),
        forall|j: int|
            olds.len() <= j < news.len() ==> #[trigger] news[j] as nat == owner_of_step(steps, m),
    ensures
        news.len() == (steps + 1) * h,
        forall|s: int|
            0 <= s < news.len() ==> #[trigger] news[s] as nat == owner_of_step(
                (s / h as int) as nat,
                m,
            ),
{
    assert((steps + 1) * h == steps * h + h) by (nonlinear_arith);
    assert forall|s: int| 0 <= s < news.len() implies #[trigger] news[s] as nat == owner_of_step(
        (s / h as int) as nat,
        m,
    ) by {
        if s < olds.len() {
            assert(news[s] == olds[s]);
        } else {
            assert(news[s] as nat == owner_of_step(steps, m));
            assert(h > 0);
            vstd::arithmetic::div_mod::lemma_fundamental_div_mod_converse(
                s,
                h as int,
                steps as int,
                s - steps * h,
            );
            assert(s / h as int == steps as int);
        }
    }
}

/// A bound that holds of every value of a sequence holds of every value of
/// any rearrangement of it.
pub proof fn lemma_rearranged_values_bounded(a: Seq<nat>, b: Seq<nat>, bound: nat)
    requires
        a.to_multiset() == b.to_multiset(),
        forall|j: int| 0 <= j < b.len() ==> #[trigger] b[j] < bound,
    ensures
        forall|i: int| 0 <= i < a.len() ==> #[trigger] a[i] < bound,
{
    broadcast use vstd::seq_lib::group_to_multiset_ensures;

    assert forall|i: int| 0 <= i < a.len() implies #[trigger] a[i] < bound by {
        assert(a.to_multiset().count(a[i]) > 0);
        assert(b.to_multiset().count(a[i]) > 0);
        assert(b.contains(a[i]));
        let j = choose|j: int| 0 <= j < b.len() && b[j] == a[i];
        assert(b[j] < bound);
    }
}

/// A responder answers a key request only after checking, against the public
/// deal record, that the requester owns every requested slot; any mismatched
/// or unknown slot is refused with `AccessDenied` and no key is disclosed.
pub fn respond_key_request(
    record: &Vec<usize>,
    requester: usize,
    slots: &Vec<usize>,
    key: &Key,
) -> (r: Result<BoxedUint, Error>)
    ensures
        match r {
            Ok(d) => uval(d) == key.d_val() && forall|k: int|
                #![trigger slots@[k]]
                0 <= k < slots@.len() ==> slots@[k] < record@.len() && record@[slots@[k] as int]
                    == requester,
            Err(er) => er == Error::AccessDenied && exists|k: int|
                #![trigger slots@[k]]
                0 <= k < slots@.len() && (slots@[k] >= record@.len() || record@[slots@[k] as int]
                    != requester),
        },
{
    let mut k: usize = 0;
    while k < slots.len()
        invariant
            k <= slots@.len(),
            forall|j: int|
                #![trigger slots@[j]]
                0 <= j < k ==> slots@[j] < record@.len() && record@[slots@[j] as int] == requester,
        decreases slots@.len() - k,
    {
        let s = slots[k];
        if s >= record.len() || record[s] != requester {
            return Err(Error::AccessDenied);
        }
        k = k + 1;
    }
    Ok(key.reveal_exponent())
}

/// The value a ciphertext reaches after the layers of a sequence of
/// decryption exponents are stripped in order.
pub open spec fn strip_all_spec(x: nat, ds: Seq<nat>, n: nat) -> nat
    recommends
        n > 0,
    decreases ds.len(),
{
    if ds.len() == 0 {
        x
    } else {
        strip_all_spec(pow_mod_spec(x, ds[0], n), ds.drop_first(), n)
    }
}

/// Stripping one more layer after a sequence of layers is the same as
/// appending its exponent to the sequence.
pub proof fn lemma_strip_all_push(x: nat, ds: Seq<nat>, d: nat, n: nat)
    ensures
        strip_all_spec(x, ds.push(d), n) == pow_mod_spec(strip_all_spec(x, ds, n), d, n),
    decreases ds.len(),
{
    if ds.len() == 0 {
        assert(ds.push(d)[0] == d);
        assert(ds.push(d).drop_first() =~= Seq::<nat>::empty());
        assert(strip_all_spec(x, ds.push(d), n) == strip_all_spec(
            pow_mod_spec(x, d, n),
            Seq::<nat>::empty(),
            n,
        ));
        assert(strip_all_spec(pow_mod_spec(x, d, n), Seq::<nat>::empty(), n) == pow_mod_spec(
            x,
            d,
            n,
        ));
        assert(strip_all_spec(x, ds, n) == x);
    } else {
        assert(ds.push(d)[0] == ds[0]);
        assert(ds.push(d).drop_first() =~= ds.drop_first().push(d));
        lemma_strip_all_push(pow_mod_spec(x, ds[0], n), ds.drop_first(), d, n);
        assert(strip_all_spec(x, ds.push(d), n) == strip_all_spec(
            pow_mod_spec(x, ds[0], n),
            ds.drop_first().push(d),
            n,
        ));
        assert(strip_all_spec(x, ds, n) == strip_all_spec(
            pow_mod_spec(x, ds[0], n),
            ds.drop_first(),
            n,
        ));
    }
}

/// The hand cut at the step before a player's seat comes back to that player:
/// stepping one seat forward from the previous seat is the seat itself.
proof fn lemma_owner_roundtrip(o: nat, m: nat)
    requires
        m > 0,
        o < m,
    ensures
        owner_of_step(((o + m - 1) as nat) % m, m) == o,
{
    if o == 0 {
        vstd::arithmetic::div_mod::lemma_small_mod((m - 1) as nat, m);
        vstd::arithmetic::div_mod::lemma_mod_self_0(m as int);
        assert((m - 1) as nat + 1 == m);
    } else {
        vstd::arithmetic::div_mod::lemma_mod_multiples_vanish(1, o as int - 1, m as int);
        vstd::arithmetic::div_mod::lemma_small_mod((o - 1) as nat, m);
        assert(((o + m - 1) as nat) % m == o - 1);
        vstd::arithmetic::div_mod::lemma_small_mod(o, m);
    }
}

/// The product of a sequence of exponents.
pub open spec fn product_of(ds: Seq<nat>) -> nat
    decreases ds.len(),
{
    if ds.len() == 0 {
        1
    } else {
        ds[0] * product_of(ds.drop_first())
    }
}

/// Stripping a whole sequence of layers is one cipher layer whose exponent is
/// the product of the sequence.
pub proof fn lemma_strip_all_is_one_layer(x: nat, ds: Seq<nat>, n: nat)
    requires
        n > 0,
        x < n,
    ensures
        strip_all_spec(x, ds, n) == pow_mod_spec(x, product_of(ds), n),
    decreases ds.len(),
{
    if ds.len() == 0 {
        vstd::arithmetic::power::lemma_pow1(x as int);
        vstd::arithmetic::div_mod::lemma_small_mod(x, n);
    } else {
        let y = pow_mod_spec(x, ds[0], n);
        vstd::arithmetic::div_mod::lemma_mod_bound(
            vstd::arithmetic::power::pow(x as int, ds[0]),
            n as int,
        );
        lemma_strip_all_is_one_layer(y, ds.drop_first(), n);
        crate::crypt::lemma_layer_merge(x, ds[0], product_of(ds.drop_first()), n);
    }
}

/// The order in which layers are stripped is irrelevant: two sequences of
/// exponents with the same product — in particular, any two orderings of the
/// same exponents — recover the same value from a ciphertext.
pub proof fn lemma_strip_order_irrelevant(x: nat, ds1: Seq<nat>, ds2: Seq<nat>, n: nat)
    requires
        n > 0,
        x < n,
        product_of(ds1) == product_of(ds2),
    ensures
        strip_all_spec(x, ds1, n) == strip_all_spec(x, ds2, n),
{
    lemma_strip_all_is_one_layer(x, ds1, n);
    lemma_strip_all_is_one_layer(x, ds2, n);
}

/// Recover a hand: strip the layer of every given exponent from each
/// ciphertext — order is irrelevant by commutativity — and decode the
/// resulting plaintexts. A ciphertext at or above the modulus, or a plaintext
/// outside the 52 valid encodings, is rejected with `EncodingOutOfRange`.
pub fn reveal_hand(hand: &Vec<BoxedUint>, exponents: &Vec<BoxedUint>, n: &BoxedUint) -> (r: Result<
    Vec<Card>,
    Error,
>)
    requires
        uval(*n) % 2 == 1,
        uval(*n) > 1,
    ensures
        match r {
            Ok(cards) => cards@.len() == hand@.len() && forall|i: int|
                #![trigger hand@[i]]
                0 <= i < hand@.len() ==> uval(hand@[i]) < uval(*n) && spec_decode(
                    strip_all_spec(uval(hand@[i]), uvals(exponents@), uval(*n)),
                ) == Some(cards@[i]),
            Err(er) => er == Error::EncodingOutOfRange && exists|i: int|
                #![trigger hand@[i]]
                0 <= i < hand@.len() && (uval(hand@[i]) >= uval(*n) || spec_decode(
                    strip_all_spec(uval(hand@[i]), uvals(exponents@), uval(*n)),
                ) is None),
        },
{
    let mut cards: Vec<Card> = Vec::new();
    let mut i: usize = 0;
    while i < hand.len()
        invariant
            uval(*n) % 2 == 1,
            uval(*n) > 1,
            i <= hand@.len(),
            cards@.len() == i,
            forall|j: int|
                #![trigger hand@[j]]
                0 <= j < i ==> uval(hand@[j]) < uval(*n) && spec_decode(
                    strip_all_spec(uval(hand@[j]), uvals(exponents@), uval(*n)),
                ) == Some(cards@[j]),
        decreases hand@.len() - i,
    {
        if !uint_lt(&hand[i], n) {
            proof {
                assert(uval(hand@[i as int]) >= uval(*n));
            }
            return Err(Error::EncodingOutOfRange);
        }
        let mut cur = hand[i].clone();
        let mut k: usize = 0;
        while k < exponents.len()
            invariant
                uval(*n) % 2 == 1,
                uval(*n) > 1,
                i < hand@.len(),
                k <= exponents@.len(),
                uval(cur) == strip_all_spec(
                    uval(hand@[i as int]),
                    uvals(exponents@).take(k as int),
                    uval(*n),
                ),
                uval(cur) < uval(*n),
            decreases exponents@.len() - k,
        {
            let next = match strip_layer(&cur, &exponents[k], n) {
                Ok(c) => c,
                Err(_) => {
                    proof {
                        assert(false);
                    }
                    return Err(Error::EncodingOutOfRange);
                },
            };
            proof {
                lemma_strip_all_push(
                    uval(hand@[i as int]),
                    uvals(exponents@).take(k as int),
                    uvals(exponents@)[k as int],
                    uval(*n),
                );
                assert(uvals(exponents@).take(k as int).push(uvals(exponents@)[k as int])
                    =~= uvals(exponents@).take(k as int + 1));
            }
            cur = next;
            k = k + 1;
        }
        proof {
            assert(uvals(exponents@).take(exponents@.len() as int) =~= uvals(exponents@));
        }
        match card_from_uint(&cur) {
            Ok(c) => cards.push(c),
            Err(er) => {
                proof {
                    assert(spec_decode(
                        strip_all_spec(uval(hand@[i as int]), uvals(exponents@), uval(*n)),
                    ) is None);
                }
                return Err(er);
            },
        }
        i = i + 1;
    }
    Ok(cards)
}

/// The decryption exponents of a table's keys, in seat order.
pub open spec fn ds_of(keys: Seq<Key>) -> Seq<nat> {
    keys.map_values(|k: Key| k.d_val())
}

/// Every key of a table undoes its own encryption on the shared modulus:
/// the property that `d = e^{-1} mod phi(n)` gives by Euler's theorem for
/// `n = p * q`. The number theory behind it is not reproved here; the deal's
/// correctness carries it as an explicit hypothesis on the keys.
pub open spec fn keys_invert(keys: Seq<Key>, n: nat) -> bool {
    forall|k: int|
        0 <= k < keys.len() ==> #[trigger] inverts(keys[k].e_val(), keys[k].d_val(), n)
}

/// The plaintext codes of the fresh deck, in order: 2 through 53.
pub open spec fn fresh_codes() -> Seq<nat> {
    Seq::new(52, |i: int| (i + 2) as nat)
}

/// Appending a factor multiplies the product by it.
proof fn lemma_product_push(s: Seq<nat>, x: nat)
    ensures
        product_of(s.push(x)) == product_of(s) * x,
    decreases s.len(),
{
    if s.len() == 0 {
        let e = Seq::<nat>::empty();
        assert(s.push(x)[0] == x);
        assert(s.push(x).drop_first() =~= e);
        assert(product_of(e) == 1);
        assert(s.push(x).len() == 1);
        assert(product_of(s.push(x)) == x * product_of(s.push(x).drop_first()));
        assert(product_of(s.push(x).drop_first()) == product_of(e));
        assert(x * 1nat == x) by (nonlinear_arith);
        assert(product_of(s) == 1);
        assert(1nat * x == x) by (nonlinear_arith);
    } else {
        assert(s.push(x)[0] == s[0]);
        assert(s.push(x).drop_first() =~= s.drop_first().push(x));
        lemma_product_push(s.drop_first(), x);
        assert(product_of(s.push(x)) == s[0] * product_of(s.drop_first().push(x)));
        assert(product_of(s) == s[0] * product_of(s.drop_first()));
        assert(s[0] * (product_of(s.drop_first()) * x) == (s[0] * product_of(s.drop_first()))
            * x) by (nonlinear_arith);
        assert(product_of(s.push(x)) == product_of(s) * x);
    }
}

/// Removing a factor divides the product by it: the product is the removed
/// factor times the product of the rest.
proof fn lemma_product_remove(s: Seq<nat>, i: int)
    requires
        0 <= i < s.len(),
    ensures
        product_of(s) == s[i] * product_of(s.remove(i)),
    decreases s.len(),
{
    if i == 0 {
        assert(s.remove(0) =~= s.drop_first());
        assert(product_of(s) == s[0] * product_of(s.drop_first()));
    } else {
        assert(s.remove(i)[0] == s[0]);
        assert(s.remove(i).drop_first() =~= s.drop_first().remove(i - 1));
        lemma_product_remove(s.drop_first(), i - 1);
        let a = s[0];
        let b = s.drop_first()[i - 1];
        let c = product_of(s.drop_first().remove(i - 1));
        assert(product_of(s) == a * product_of(s.drop_first()));
        assert(product_of(s.remove(i)) == a * product_of(s.drop_first().remove(i - 1)));
        assert(a * (b * c) == b * (a * c)) by (nonlinear_arith);
    }
}

/// Sequences that hold the same values hold the same values after any
/// pointwise transformation.
proof fn lemma_map_values_multiset(a: Seq<nat>, b: Seq<nat>, f: spec_fn(nat) -> nat)
    requires
        a.to_multiset() == b.to_multiset(),
    ensures
        a.map_values(f).to_multiset() == b.map_values(f).to_multiset(),
    decreases a.len(),
{
    broadcast use vstd::seq_lib::group_to_multiset_ensures;
    broadcast use vstd::multiset::group_multiset_axioms;

    if a.len() == 0 {
        assert(a.to_multiset().len() == a.len());
        assert(b.to_multiset().len() == b.len());
        assert(b.len() == 0);
        assert(a.map_values(f) =~= Seq::<nat>::empty());
        assert(b.map_values(f) =~= Seq::<nat>::empty());
    } else {
        let x = a[0];
        assert(a.contains(x));
        assert(b.to_multiset().count(x) > 0);
        assert(b.contains(x));
        let j = choose|j: int| 0 <= j < b.len() && b[j] == x;
        let a1 = a.remove(0);
        let b1 = b.remove(j);
        assert(a1.to_multiset() == a.to_multiset().remove(x));
        assert(b1.to_multiset() == b.to_multiset().remove(x));
        lemma_map_values_multiset(a1, b1, f);
        assert(a1.map_values(f) =~= a.map_values(f).remove(0));
        assert(b1.map_values(f) =~= b.map_values(f).remove(j));
        let ma = a.map_values(f).to_multiset();
        let mb = b.map_values(f).to_multiset();
        assert(a.map_values(f)[0] == f(x));
        assert(b.map_values(f)[j] == f(x));
        assert(a.map_values(f).remove(0).to_multiset() == ma.remove(f(x)));
        assert(b.map_values(f).remove(j).to_multiset() == mb.remove(f(x)));
        assert(ma.remove(f(x)) == mb.remove(f(x)));
        assert(a.map_values(f).contains(f(x)));
        assert(b.map_values(f).contains(f(x)));
        assert(ma.count(f(x)) > 0);
        assert(mb.count(f(x)) > 0);
        assert(ma =~= mb) by {
            assert forall|z: nat| ma.count(z) == mb.count(z) by {
                if z == f(x) {
                    assert(ma.remove(f(x)).count(z) == ma.count(z) - 1);
                    assert(mb.remove(f(x)).count(z) == mb.count(z) - 1);
                } else {
                    assert(ma.remove(f(x)).count(z) == ma.count(z));
                    assert(mb.remove(f(x)).count(z) == mb.count(z));
                }
            }
        }
    }
}

/// One shuffle pass conserves the deck. After a player encrypts every card
/// with the exponent `e` and reorders the result by any permutation, the
/// multiset of stripped plaintexts — each card stripped of the new layer `d`
/// and then of the exponent product still pending — is exactly the multiset
/// of plaintexts pending before the pass: no card is duplicated, lost or
/// invented by encrypting and permuting.
pub proof fn lemma_shuffle_pass_conserves(
    before: Seq<nat>,
    after: Seq<nat>,
    e: nat,
    d: nat,
    pending: nat,
    n: nat,
)
    requires
        n > 0,
        forall|i: int| 0 <= i < before.len() ==> #[trigger] before[i] < n,
        inverts(e, d, n),
        after.to_multiset() == before.map_values(
            |y: nat| pow_mod_spec(y, e, n),
        ).to_multiset(),
    ensures
        after.map_values(|y: nat| pow_mod_spec(y, d * pending, n)).to_multiset()
            == before.map_values(|y: nat| pow_mod_spec(y, pending, n)).to_multiset(),
{
    let enc = before.map_values(|y: nat| pow_mod_spec(y, e, n));
    lemma_map_values_multiset(after, enc, |y: nat| pow_mod_spec(y, d * pending, n));
    assert(enc.map_values(|y: nat| pow_mod_spec(y, d * pending, n)) =~= before.map_values(
        |y: nat| pow_mod_spec(y, pending, n),
    )) by {
        assert forall|i: int| 0 <= i < before.len() implies pow_mod_spec(
            pow_mod_spec(before[i], e, n),
            d * pending,
            n,
        ) == pow_mod_spec(before[i], pending, n) by {
            let y = before[i];
            crate::crypt::lemma_layer_merge(pow_mod_spec(y, e, n), d, pending, n);
            assert(pow_mod_spec(pow_mod_spec(y, e, n), d, n) == y);
        }
    }
}

/// What the conserved multiset yields: if stripping the pending exponent from
/// a deck gives back exactly the fresh card codes, then every stripped value
/// is a valid code and no two positions strip to the same code.
proof fn lemma_plains_facts(vals: Seq<nat>, dp: nat, n: nat)
    requires
        vals.map_values(|y: nat| pow_mod_spec(y, dp, n)).to_multiset() == fresh_codes().to_multiset(),
    ensures
        vals.len() == 52,
        forall|i: int| 0 <= i < 52 ==> 2 <= #[trigger] pow_mod_spec(vals[i], dp, n) < 54,
        forall|i: int, j: int|
            0 <= i < 52 && 0 <= j < 52 && i != j ==> pow_mod_spec(vals[i], dp, n) != pow_mod_spec(
                vals[j],
                dp,
                n,
            ),
{
    broadcast use vstd::seq_lib::group_to_multiset_ensures;

    let mapped = vals.map_values(|y: nat| pow_mod_spec(y, dp, n));
    assert(fresh_codes().no_duplicates());
    fresh_codes().lemma_multiset_has_no_duplicates();
    assert(vals.len() == 52) by {
        assert(mapped.to_multiset().len() == mapped.len());
        assert(fresh_codes().to_multiset().len() == fresh_codes().len());
    }
    assert forall|i: int| 0 <= i < 52 implies 2 <= #[trigger] pow_mod_spec(vals[i], dp, n)
        < 54 by {
        assert(mapped[i] == pow_mod_spec(vals[i], dp, n));
        assert(mapped.contains(mapped[i]));
        assert(fresh_codes().to_multiset().count(mapped[i]) > 0);
        assert(fresh_codes().contains(mapped[i]));
        let k = choose|k: int| 0 <= k < 52 && fresh_codes()[k] == mapped[i];
        assert(fresh_codes()[k] == k + 2);
    }
    assert(forall|x: nat|
        mapped.to_multiset().contains(x) ==> mapped.to_multiset().count(x) == 1);
    mapped.lemma_multiset_has_no_duplicates_conv();
    assert forall|i: int, j: int| 0 <= i < 52 && 0 <= j < 52 && i != j implies pow_mod_spec(
        vals[i],
        dp,
        n,
    ) != pow_mod_spec(vals[j], dp, n) by {
        assert(mapped[i] == pow_mod_spec(vals[i], dp, n));
        assert(mapped[j] == pow_mod_spec(vals[j], dp, n));
    }
}

/// The step at which a player's hand is cut: the seat before it around the
/// table.
pub open spec fn step_of_owner(o: int, m: int) -> int {
    if o == 0 {
        m - 1
    } else {
        o - 1
    }
}

/// The rotation's modular arithmetic lands on the seat before the owner.
proof fn lemma_step_formula(o: nat, m: nat)
    requires
        m > 0,
        o < m,
    ensures
        ((o + m - 1) as nat) % m == step_of_owner(o as int, m as int),
{
    if o == 0 {
        vstd::arithmetic::div_mod::lemma_small_mod((m - 1) as nat, m);
    } else {
        vstd::arithmetic::div_mod::lemma_mod_multiples_vanish(1, o as int - 1, m as int);
        vstd::arithmetic::div_mod::lemma_small_mod((o - 1) as nat, m);
    }
}

/// Run one complete deal at a single-process table of `m` players: every
/// player adds its layer and permutes, the deck rotates once around the
/// table, and each player in turn broadcasts its key request, collects the
/// disclosed exponents, and reveals its hand. Under keys whose exponents undo
/// one another (`keys_invert`), the deal is owed success whenever the deck
/// suffices, and the revealed hands are pairwise disjoint cards of the deck.
pub fn run_deal(keys: &Vec<Key>, h: usize) -> (r: Result<Vec<Vec<Card>>, Error>)
    requires
        keys@.len() >= 1,
        h >= 1,
        forall|k: int| 0 <= k < keys@.len() ==> (#[trigger] keys@[k]).wf(),
        forall|k: int| 0 <= k < keys@.len() ==> (#[trigger] keys@[k]).n_val() == keys@[0].n_val(),
        keys@[0].n_val() > 53,
        keys_invert(keys@, keys@[0].n_val()),
    ensures
        match r {
            Ok(hands) => {
                &&& keys@.len() * h <= 52
                &&& hands@.len() == keys@.len()
                &&& forall|j: int| 0 <= j < hands@.len() ==> (#[trigger] hands@[j])@.len() == h
                &&& forall|o1: int, i1: int, o2: int, i2: int|
                    #![trigger hands@[o1]@[i1], hands@[o2]@[i2]]
                    0 <= o1 < hands@.len() && 0 <= i1 < h && 0 <= o2 < hands@.len() && 0 <= i2 < h
                        && (o1 != o2 || i1 != i2) ==> hands@[o1]@[i1] != hands@[o2]@[i2]
            },
            Err(er) => er == Error::DeckExhausted && keys@.len() * h > 52,
        },
{
    let m = keys.len();
    let ghost n0 = keys@[0].n_val();
    let ghost ds = ds_of(keys@);
    let mut st = match DealProtocol::new(m, h) {
        Ok(st) => st,
        Err(er) => {
            return Err(er);
        },
    };
    proof {
        assert(ds.take(0) =~= Seq::<nat>::empty());
        assert(uvals(st.deck@).map_values(|y: nat| pow_mod_spec(y, product_of(ds.take(0)), n0))
            =~= fresh_codes()) by {
            assert forall|i: int| 0 <= i < 52 implies uvals(st.deck@).map_values(
                |y: nat| pow_mod_spec(y, product_of(ds.take(0)), n0),
            )[i] == fresh_codes()[i] by {
                let y = uval(st.deck@[i]);
                assert(y == i + 2);
                vstd::arithmetic::power::lemma_pow1(y as int);
                vstd::arithmetic::div_mod::lemma_small_mod(y, n0);
            }
        }
    }
    let mut k: usize = 0;
    while k < m
        invariant
            m == keys@.len(),
            m >= 1,
            h >= 1,
            forall|j: int| 0 <= j < keys@.len() ==> (#[trigger] keys@[j]).wf(),
            forall|j: int| 0 <= j < keys@.len() ==> (#[trigger] keys@[j]).n_val() == n0,
            n0 > 53,
            n0 == keys@[0].n_val(),
            keys_invert(keys@, n0),
            ds == ds_of(keys@),
            m as int * h as int <= 52,
            k <= m,
            st.wf(),
            st.m == m,
            st.h == h,
            st.layers == k,
            st.steps == 0,
            st.revealed == 0,
            st.phase == (if k == m {
                Phase::AllEncrypted
            } else {
                Phase::Init
            }),
            st.deck@.len() == 52,
            forall|i: int| 0 <= i < 52 ==> #[trigger] uval(st.deck@[i]) < n0,
            uvals(st.deck@).map_values(
                |y: nat| pow_mod_spec(y, product_of(ds.take(k as int)), n0),
            ).to_multiset() == fresh_codes().to_multiset(),
        decreases m - k,
    {
        let ghost prev = st.deck@;
        match st.encrypt_layer(&keys[k]) {
            Ok(()) => {},
            Err(er) => {
                proof {
                    assert(false);
                }
                return Err(er);
            },
        }
        let ghost mid = st.deck@;
        st.permute_deck();
        proof {
            lemma_rearranged_values_bounded(uvals(st.deck@), uvals(mid), n0);
            assert forall|i: int| 0 <= i < 52 implies #[trigger] uval(st.deck@[i]) < n0 by {
                assert(uvals(st.deck@)[i] == uval(st.deck@[i]));
            }
            let ek = keys@[k as int].e_val();
            let dk = keys@[k as int].d_val();
            let pk = product_of(ds.take(k as int));
            assert(uvals(mid) =~= uvals(prev).map_values(|y: nat| pow_mod_spec(y, ek, n0))) by {
                assert forall|i: int| 0 <= i < 52 implies uvals(mid)[i] == uvals(prev).map_values(
                    |y: nat| pow_mod_spec(y, ek, n0),
                )[i] by {
                    assert(uval(mid[i]) == pow_mod_spec(uval(prev[i]), ek, n0));
                }
            }
            assert(inverts(ek, dk, n0));
            lemma_shuffle_pass_conserves(uvals(prev), uvals(st.deck@), ek, dk, pk, n0);
            assert(ds.take(k as int).push(ds[k as int]) =~= ds.take(k as int + 1));
            lemma_product_push(ds.take(k as int), ds[k as int]);
            assert(ds[k as int] == dk);
            vstd::arithmetic::mul::lemma_mul_is_commutative(dk as int, pk as int);
            assert(uvals(st.deck@).map_values(
                |y: nat| pow_mod_spec(y, product_of(ds.take(k as int + 1)), n0),
            ) =~= uvals(st.deck@).map_values(|y: nat| pow_mod_spec(y, dk * pk, n0)));
        }
        k = k + 1;
    }
    let ghost vals52 = uvals(st.deck@);
    let ghost dp = product_of(ds);
    proof {
        assert(ds.take(m as int) =~= ds);
        lemma_plains_facts(vals52, dp, n0);
        assert forall|i: int| 0 <= i < 52 implies #[trigger] vals52[i] < n0 by {
            assert(vals52[i] == uval(st.deck@[i]));
        }
    }
    let mut k: usize = 0;
    while k < m
        invariant
            m == keys@.len(),
            m >= 1,
            h >= 1,
            forall|j: int| 0 <= j < keys@.len() ==> (#[trigger] keys@[j]).wf(),
            forall|j: int| 0 <= j < keys@.len() ==> (#[trigger] keys@[j]).n_val() == n0,
            n0 > 53,
            n0 == keys@[0].n_val(),
            ds == ds_of(keys@),
            m as int * h as int <= 52,
            k <= m,
            st.wf(),
            st.m == m,
            st.h == h,
            st.steps == k,
            st.revealed == 0,
            st.phase == (if k == 0 {
                Phase::AllEncrypted
            } else if k < m {
                Phase::Rotating
            } else {
                Phase::HandsAssigned
            }),
            st.deck@.len() as int == 52 - k as int * h as int,
            vals52.len() == 52,
            forall|i: int| 0 <= i < 52 ==> #[trigger] vals52[i] < n0,
            forall|i: int|
                0 <= i < st.deck@.len() ==> #[trigger] uval(st.deck@[i]) == vals52[k as int
                    * h as int + i],
            forall|s: int, j: int|
                #![trigger st.hands@[s]@[j]]
                0 <= s < k && 0 <= j < h ==> uval(st.hands@[s]@[j]) == pow_mod_spec(
                    vals52[s * h as int + j],
                    ds[s],
                    n0,
                ),
        decreases m - k,
    {
        proof {
            vstd::arithmetic::mul::lemma_mul_inequality(k as int + 1, m as int, h as int);
            assert((k as int + 1) * h as int == k as int * h as int + h as int)
                by (nonlinear_arith);
        }
        let ghost before_deck = st.deck@;
        let ghost before_hands = st.hands@;
        match st.rotate_next(&keys[k]) {
            Ok(()) => {},
            Err(er) => {
                proof {
                    assert(false);
                }
                return Err(er);
            },
        }
        proof {
            assert forall|i: int| 0 <= i < st.deck@.len() implies #[trigger] uval(st.deck@[i])
                == vals52[(k as int + 1) * h as int + i] by {
                assert(st.deck@[i] == before_deck[i + h as int]);
            }
            assert forall|s: int, j: int|
                0 <= s < k + 1 && 0 <= j < h implies uval(#[trigger] st.hands@[s]@[j])
                == pow_mod_spec(vals52[s * h as int + j], ds[s], n0) by {
                if s < k {
                    assert(st.hands@.subrange(0, k as int)[s] == before_hands[s]);
                    assert(st.hands@[s] == before_hands[s]);
                } else {
                    assert(st.hands@[s] == st.hands@.last());
                    assert(uval(before_deck[j]) == vals52[k as int * h as int + j]);
                    assert(ds[s] == keys@[k as int].d_val());
                }
            }
        }
        k = k + 1;
    }
    let mut hands_out: Vec<Vec<Card>> = Vec::new();
    let mut o: usize = 0;
    proof {
        vstd::arithmetic::mul::lemma_mul_inequality(1, h as int, m as int);
        vstd::arithmetic::mul::lemma_mul_is_commutative(h as int, m as int);
    }
    while o < m
        invariant
            m == keys@.len(),
            m >= 1,
            h >= 1,
            m <= 52,
            forall|j: int| 0 <= j < keys@.len() ==> (#[trigger] keys@[j]).wf(),
            forall|j: int| 0 <= j < keys@.len() ==> (#[trigger] keys@[j]).n_val() == n0,
            n0 > 53,
            n0 == keys@[0].n_val(),
            ds == ds_of(keys@),
            dp == product_of(ds),
            m as int * h as int <= 52,
            o <= m,
            st.wf(),
            st.m == m,
            st.h == h,
            st.steps == m,
            st.revealed == o,
            st.phase == (if o == 0 {
                Phase::HandsAssigned
            } else if o < m {
                Phase::Revealed
            } else {
                Phase::Done
            }),
            vals52.len() == 52,
            forall|i: int| 0 <= i < 52 ==> #[trigger] vals52[i] < n0,
            forall|i: int| 0 <= i < 52 ==> 2 <= #[trigger] pow_mod_spec(vals52[i], dp, n0) < 54,
            forall|i: int, j: int|
                0 <= i < 52 && 0 <= j < 52 && i != j ==> pow_mod_spec(vals52[i], dp, n0)
                    != pow_mod_spec(vals52[j], dp, n0),
            forall|s: int, j: int|
                #![trigger st.hands@[s]@[j]]
                0 <= s < m && 0 <= j < h ==> uval(st.hands@[s]@[j]) == pow_mod_spec(
                    vals52[s * h as int + j],
                    ds[s],
                    n0,
                ),
            hands_out@.len() == o,
            forall|j: int| 0 <= j < o ==> (#[trigger] hands_out@[j])@.len() == h,
            forall|oo: int, ii: int|
                #![trigger hands_out@[oo]@[ii]]
                0 <= oo < o && 0 <= ii < h ==> spec_encode(hands_out@[oo]@[ii]) == pow_mod_spec(
                    vals52[step_of_owner(oo, m as int) * h as int + ii],
                    dp,
                    n0,
                ),
        decreases m - o,
    {
        let step = (o + m - 1) % m;
        proof {
            lemma_step_formula(o as nat, m as nat);
            lemma_owner_roundtrip(o as nat, m as nat);
            assert(step as int == step_of_owner(o as int, m as int));
            vstd::arithmetic::mul::lemma_mul_inequality(step as int + 1, m as int, h as int);
            assert((step as int + 1) * h as int == step as int * h as int + h as int)
                by (nonlinear_arith);
        }
        let mut slots: Vec<usize> = Vec::new();
        let mut t: usize = 0;
        while t < h
            invariant
                t <= h,
                step < m,
                step as int * h as int + h as int <= 52,
                slots@.len() == t,
                forall|u: int| 0 <= u < t ==> #[trigger] slots@[u] == step * h + u,
            decreases h - t,
        {
            slots.push(step * h + t);
            t = t + 1;
        }
        let pkg = st.request_reveal(o, slots);
        let (requester, slots) = match pkg {
            Package::KeyRequest { requester, slots } => (requester, slots),
            _ => {
                proof {
                    assert(false);
                }
                return Err(Error::DeckExhausted);
            },
        };
        proof {
            assert forall|u: int|
                0 <= u < slots@.len() implies #[trigger] slots@[u] < st.record@.len()
                && st.record@[slots@[u] as int] == requester by {
                assert(slots@[u] == step * h + u);
                assert(st.record@.len() == m * h);
                vstd::arithmetic::div_mod::lemma_fundamental_div_mod_converse(
                    slots@[u] as int,
                    h as int,
                    step as int,
                    u,
                );
                assert(slots@[u] as int / h as int == step as int);
            }
        }
        let mut exps: Vec<BoxedUint> = Vec::new();
        let mut j: usize = 0;
        while j < m
            invariant
                m == keys@.len(),
                j <= m,
                step < m,
                requester == o,
                o < m,
                ds == ds_of(keys@),
                forall|jj: int| 0 <= jj < keys@.len() ==> (#[trigger] keys@[jj]).wf(),
                forall|u: int|
                    0 <= u < slots@.len() ==> #[trigger] slots@[u] < st.record@.len()
                        && st.record@[slots@[u] as int] == requester,
                j <= step ==> uvals(exps@) == ds.take(j as int),
                j > step ==> uvals(exps@) == ds.take(j as int).remove(step as int),
            decreases m - j,
        {
            let ghost prev_exps = exps@;
            if j != step {
                if j == o {
                    exps.push(keys[j].reveal_exponent());
                } else {
                    match respond_key_request(&st.record, requester, &slots, &keys[j]) {
                        Ok(d) => exps.push(d),
                        Err(er) => {
                            proof {
                                assert(false);
                            }
                            return Err(Error::DeckExhausted);
                        },
                    }
                }
                proof {
                    assert(uvals(exps@) =~= uvals(prev_exps).push(ds[j as int]));
                    if j < step {
                        assert(ds.take(j as int).push(ds[j as int]) =~= ds.take(j as int + 1));
                    } else {
                        assert(ds.take(j as int).remove(step as int).push(ds[j as int]) =~= ds.take(
                            j as int + 1,
                        ).remove(step as int));
                    }
                }
            } else {
                proof {
                    assert(ds.take(step as int) =~= ds.take(step as int + 1).remove(step as int));
                }
            }
            j = j + 1;
        }
        proof {
            assert(ds.take(m as int) =~= ds);
            assert(uvals(exps@) == ds.remove(step as int));
        }
        proof {
            assert forall|i: int|
                0 <= i < h implies uval(#[trigger] st.hands@[step as int]@[i]) < n0
                && strip_all_spec(uval(st.hands@[step as int]@[i]), uvals(exps@), n0)
                == pow_mod_spec(vals52[step as int * h as int + i], dp, n0) && spec_decode(
                strip_all_spec(uval(st.hands@[step as int]@[i]), uvals(exps@), n0),
            ) is Some by {
                let v = vals52[step as int * h as int + i];
                let w = uval(st.hands@[step as int]@[i]);
                assert(w == pow_mod_spec(v, ds[step as int], n0));
                assert(w < n0) by {
                    vstd::arithmetic::div_mod::lemma_mod_bound(
                        vstd::arithmetic::power::pow(v as int, ds[step as int]),
                        n0 as int,
                    );
                }
                lemma_strip_all_is_one_layer(w, uvals(exps@), n0);
                crate::crypt::lemma_layer_merge(
                    v,
                    ds[step as int],
                    product_of(uvals(exps@)),
                    n0,
                );
                lemma_product_remove(ds, step as int);
                assert(2 <= pow_mod_spec(v, dp, n0) < 54);
            }
        }
        let cards = match reveal_hand(&st.hands[step], &exps, keys[0].modulus()) {
            Ok(c) => c,
            Err(er) => {
                proof {
                    assert(false);
                }
                return Err(er);
            },
        };
        proof {
            assert forall|i: int| 0 <= i < h implies spec_encode(cards@[i]) == pow_mod_spec(
                vals52[step as int * h as int + i],
                dp,
                n0,
            ) by {
                let w = uval(st.hands@[step as int]@[i]);
                let x = pow_mod_spec(vals52[step as int * h as int + i], dp, n0);
                assert(spec_decode(strip_all_spec(w, uvals(exps@), n0)) == Some(cards@[i]));
                assert(strip_all_spec(w, uvals(exps@), n0) == x);
                lemma_decode_encode(x);
            }
        }
        st.complete_reveal();
        hands_out.push(cards);
        o = o + 1;
    }
    proof {
        assert forall|o1: int, i1: int, o2: int, i2: int|
            0 <= o1 < m && 0 <= i1 < h && 0 <= o2 < m && 0 <= i2 < h && (o1 != o2 || i1 != i2)
            implies hands_out@[o1]@[i1] != hands_out@[o2]@[i2] by {
            let s1 = step_of_owner(o1, m as int);
            let s2 = step_of_owner(o2, m as int);
            let idx1 = s1 * h as int + i1;
            let idx2 = s2 * h as int + i2;
            assert(0 <= s1 < m && 0 <= s2 < m);
            vstd::arithmetic::mul::lemma_mul_inequality(s1 + 1, m as int, h as int);
            vstd::arithmetic::mul::lemma_mul_inequality(s2 + 1, m as int, h as int);
            assert((s1 + 1) * h as int == s1 * h as int + h as int) by (nonlinear_arith);
            assert((s2 + 1) * h as int == s2 * h as int + h as int) by (nonlinear_arith);
            assert(0 <= idx1 < 52 && 0 <= idx2 < 52);
            if o1 != o2 {
                assert(s1 != s2);
                if s1 < s2 {
                    vstd::arithmetic::mul::lemma_mul_inequality(s1 + 1, s2, h as int);
                } else {
                    vstd::arithmetic::mul::lemma_mul_inequality(s2 + 1, s1, h as int);
                }
                assert(idx1 != idx2);
            } else {
                assert(idx1 != idx2);
            }
            assert(pow_mod_spec(vals52[idx1], dp, n0) != pow_mod_spec(vals52[idx2], dp, n0));
            assert(spec_encode(hands_out@[o1]@[i1]) == pow_mod_spec(vals52[idx1], dp, n0));
            assert(spec_encode(hands_out@[o2]@[i2]) == pow_mod_spec(vals52[idx2], dp, n0));
        }
    }
    Ok(hands_out)
}

} // verus!
