//! The card dealer: a shuffled bag of twelve small tiles, dealt from the
//! front, and the bonus tiles that the highest tile on the board earns.

use rand::rngs::ThreadRng;
use std::collections::VecDeque;
use vstd::prelude::*;
use vstd::multiset::Multiset;
use vstd::seq_lib::{
    to_multiset_build, to_multiset_contains, to_multiset_len, to_multiset_remove,
};
use crate::chance::shuffle;

verus! {

/// Cards in a full bag.
pub const BAG_SIZE: usize = 12;

/// A bonus tile comes when a roll below this number gives 0.
pub const BONUS_ODDS: u32 = 21;

/// The largest bonus tile is this part of the highest tile.
pub const BONUS_DIV: u32 = 8;

/// The largest bonus tile lies this many codes below the highest tile: as
/// many as there are halvings in `BONUS_DIV`.
pub const BIT_BONUS_SUB: u64 = 3;

/// The card dealt when the deck has none.
pub const DEFAULT_CARD: u64 = 3;

/// The bag before it is shuffled: four each of the tiles 1, 2 and 3.
pub open spec fn bag_order() -> Seq<u64> {
    seq![1u64, 1, 1, 1, 2, 2, 2, 2, 3, 3, 3, 3]
}

/// The cards of a full bag, whatever their order.
pub open spec fn full_bag() -> Multiset<u64> {
    bag_order().to_multiset()
}

/// The cards are left over from one full bag.
pub open spec fn is_part_of_bag(deck: Seq<u64>) -> bool {
    deck.to_multiset().subset_of(full_bag())
}

/// The three bonus tiles that a highest tile of code `highest` earns.
pub open spec fn bonus_values(highest: nat) -> Seq<u64> {
    seq![
        (highest - BIT_BONUS_SUB) as u64,
        (highest - BIT_BONUS_SUB - 1) as u64,
        (highest - BIT_BONUS_SUB - 2) as u64,
    ]
}

/// A full bag holds four 1s, four 2s, four 3s and nothing else.
pub proof fn lemma_full_bag()
    ensures
        full_bag().len() == BAG_SIZE,
        full_bag().count(1) == 4,
        full_bag().count(2) == 4,
        full_bag().count(3) == 4,
        forall|v: u64| v != 1 && v != 2 && v != 3 ==> full_bag().count(v) == 0,
{
    broadcast use vstd::multiset::group_multiset_axioms;

    let e = Seq::<u64>::empty();
    to_multiset_len(e);
    assert(e.to_multiset() =~= Multiset::<u64>::empty());
    let s1 = e.push(1);
    let s2 = s1.push(1);
    let s3 = s2.push(1);
    let s4 = s3.push(1);
    let s5 = s4.push(2);
    let s6 = s5.push(2);
    let s7 = s6.push(2);
    let s8 = s7.push(2);
    let s9 = s8.push(3);
    let s10 = s9.push(3);
    let s11 = s10.push(3);
    let s12 = s11.push(3);
    to_multiset_build(e, 1);
    to_multiset_build(s1, 1);
    to_multiset_build(s2, 1);
    to_multiset_build(s3, 1);
    to_multiset_build(s4, 2);
    to_multiset_build(s5, 2);
    to_multiset_build(s6, 2);
    to_multiset_build(s7, 2);
    to_multiset_build(s8, 3);
    to_multiset_build(s9, 3);
    to_multiset_build(s10, 3);
    to_multiset_build(s11, 3);
    assert(s12 =~= bag_order());
    to_multiset_len(bag_order());
}

/// What is left of a bag has at most twelve cards, each a 1, a 2 or a 3.
pub proof fn lemma_part_of_bag(deck: Seq<u64>)
    requires
        is_part_of_bag(deck),
    ensures
        deck.len() <= BAG_SIZE,
        forall|i: int| 0 <= i < deck.len() ==> 1 <= #[trigger] deck[i] <= 3,
{
    broadcast use vstd::multiset::group_multiset_axioms;

    lemma_full_bag();
    to_multiset_len(deck);
    let rest = full_bag().sub(deck.to_multiset());
    assert(deck.to_multiset().add(rest) =~= full_bag());
    assert forall|i: int| 0 <= i < deck.len() implies 1 <= #[trigger] deck[i] <= 3 by {
        to_multiset_contains(deck, deck[i]);
        assert(deck.contains(deck[i]));
    }
}

/// Dealing the front card leaves a part of the same bag.
pub proof fn lemma_rest_of_bag(deck: Seq<u64>)
    requires
        deck.len() > 0,
    ensures
        deck.subrange(1, deck.len() as int).to_multiset().insert(deck[0]) == deck.to_multiset(),
        is_part_of_bag(deck) ==> is_part_of_bag(deck.subrange(1, deck.len() as int)),
{
    broadcast use vstd::multiset::group_multiset_axioms;

    assert(deck.subrange(1, deck.len() as int) =~= deck.remove(0));
    to_multiset_remove(deck, 0);
    to_multiset_contains(deck, deck[0]);
    assert(deck.contains(deck[0]));
    assert(deck.remove(0).to_multiset().insert(deck[0]) =~= deck.to_multiset());
}

/// The cards from place `from` on are among the cards of the whole.
pub proof fn lemma_rest_keeps_to_bag(deck: Seq<u64>, from: int)
    requires
        0 <= from <= deck.len(),
    ensures
        deck.subrange(from, deck.len() as int).to_multiset().subset_of(deck.to_multiset()),
    decreases from,
{
    broadcast use vstd::multiset::group_multiset_axioms;

    if from == 0 {
        assert(deck.subrange(0, deck.len() as int) =~= deck);
    } else {
        lemma_rest_keeps_to_bag(deck, from - 1);
        let before = deck.subrange(from - 1, deck.len() as int);
        lemma_rest_of_bag(before);
        assert(before.subrange(1, before.len() as int) =~= deck.subrange(from, deck.len() as int));
    }
}

/// Whether the cards are left over from one full bag: nothing but 1s, 2s and
/// 3s, and at most four of each.
pub fn is_leftover(cards: &Vec<u64>) -> (ok: bool)
    ensures
        ok == is_part_of_bag(cards@),
{
    broadcast use vstd::multiset::group_multiset_axioms;

    let mut ones: usize = 0;
    let mut twos: usize = 0;
    let mut threes: usize = 0;
    let mut i: usize = 0;
    proof {
        to_multiset_len(cards@.take(0));
        assert(cards@.take(0).to_multiset() =~= Multiset::<u64>::empty());
    }
    while i < cards.len()
        invariant
            i <= cards@.len(),
            ones == cards@.take(i as int).to_multiset().count(1),
            twos == cards@.take(i as int).to_multiset().count(2),
            threes == cards@.take(i as int).to_multiset().count(3),
            forall|j: int| 0 <= j < i ==> 1 <= #[trigger] cards@[j] <= 3,
            ones <= i && twos <= i && threes <= i,
        decreases cards@.len() - i,
    {
        let card: u64 = cards[i];
        proof {
            assert(cards@.take(i + 1) =~= cards@.take(i as int).push(card));
            to_multiset_build(cards@.take(i as int), card);
        }
        if card == 1 {
            ones += 1;
        } else if card == 2 {
            twos += 1;
        } else if card == 3 {
            threes += 1;
        } else {
            proof {
                lemma_full_bag();
                to_multiset_contains(cards@, card);
                assert(cards@.contains(card));
            }
            return false;
        }
        i += 1;
    }
    proof {
        assert(cards@.take(i as int) =~= cards@);
        lemma_full_bag();
        assert forall|v: u64| v != 1 && v != 2 && v != 3 implies cards@.to_multiset().count(v)
            == 0 by {
            to_multiset_contains(cards@, v);
            if cards@.contains(v) {
                let j = choose|j: int| 0 <= j < cards@.len() && cards@[j] == v;
                assert(1 <= cards@[j] <= 3);
            }
        }
    }
    ones <= 4 && twos <= 4 && threes <= 4
}

/// A fresh deck: the twelve cards of a full bag in a random order.
pub fn new_deck(rng: &mut ThreadRng) -> (deck: VecDeque<u64>)
    ensures
        deck@.to_multiset() == full_bag(),
        deck@.len() == BAG_SIZE,
{
    let mut nums: Vec<u64> = vec![1, 1, 1, 1, 2, 2, 2, 2, 3, 3, 3, 3];
    assert(nums@ =~= bag_order());
    shuffle(rng, &mut nums);
    proof {
        lemma_full_bag();
        to_multiset_len(nums@);
    }
    deck_from(&nums)
}

/// The cards as a deck, the first one at the front.
pub fn deck_from(cards: &Vec<u64>) -> (deck: VecDeque<u64>)
    ensures
        deck@ == cards@,
{
    let mut deck: VecDeque<u64> = VecDeque::new();
    let mut i: usize = 0;
    while i < cards.len()
        invariant
            i <= cards@.len(),
            deck@ =~= cards@.take(i as int),
        decreases cards@.len() - i,
    {
        deck.push_back(cards[i]);
        i += 1;
    }
    assert(cards@.take(i as int) =~= cards@);
    deck
}

/// The cards of a deck, the front one first.
pub fn cards_in(deck: &VecDeque<u64>) -> (cards: Vec<u64>)
    ensures
        cards@ == deck@,
{
    let mut cards: Vec<u64> = Vec::new();
    let mut i: usize = 0;
    while i < deck.len()
        invariant
            i <= deck@.len(),
            cards@ =~= deck@.take(i as int),
        decreases deck@.len() - i,
    {
        cards.push(deck[i]);
        i += 1;
    }
    assert(deck@.take(i as int) =~= deck@);
    cards
}

/// Takes the front card off the deck; `DEFAULT_CARD` if the deck is empty.
pub fn take_card(deck: &mut VecDeque<u64>) -> (card: u64)
    ensures
        old(deck)@.len() > 0 ==> card == old(deck)@[0] && final(deck)@ == old(deck)@.subrange(
            1,
            old(deck)@.len() as int,
        ),
        old(deck)@.len() == 0 ==> card == DEFAULT_CARD && final(deck)@ == old(deck)@,
{
    match deck.pop_front() {
        Some(card) => card,
        None => DEFAULT_CARD,
    }
}

} // verus!
