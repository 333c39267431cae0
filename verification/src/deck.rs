//! Draw pile and discard pile for a player's deck.
//!
//! Drawing a hand deals cards from the top of the draw pile. If the draw pile
//! runs out mid-draw, the discard pile is shuffled into a new draw pile and
//! the rest of the hand is dealt from it; if both run out, the hand comes
//! back short.

use vstd::prelude::*;
use rand::rngs::StdRng;
use crate::card_data::CardData;
use crate::random::shuffle;

verus! {

/// A deck as the contracts see it. The top of the draw pile is its last
/// card.
pub struct DeckView {
    pub draw: Seq<CardData>,
    pub discard: Seq<CardData>,
}

pub struct Deck {
    draw_pile: Vec<CardData>,
    discard_pile: Vec<CardData>,
}

impl View for Deck {
    type V = DeckView;

    closed spec fn view(&self) -> DeckView {
        DeckView { draw: self.draw_pile@, discard: self.discard_pile@ }
    }
}

/// What drawing a hand of `hand_size` from `before` deals, and leaves behind
/// in `after`: the top of the draw pile first, card by card, and then, if
/// that was not enough, the top of the reshuffled discard pile.
pub open spec fn drawn_as(before: DeckView, hand_size: nat, hand: Seq<CardData>, after: DeckView) -> bool {
    let d = before.draw.len();
    &&& hand.len() == if hand_size < d + before.discard.len() { hand_size } else { d + before.discard.len() }
    &&& hand_size <= d ==> {
        &&& hand == before.draw.subrange(d - hand_size, d as int).reverse()
        &&& after.draw == before.draw.take(d - hand_size)
        &&& after.discard == before.discard
    }
    &&& hand_size > d ==> {
        &&& hand.take(d as int) == before.draw.reverse()
        &&& after.discard.len() == 0
        &&& (after.draw + hand.skip(d as int).reverse()).to_multiset() == before.discard.to_multiset()
    }
}

impl Deck {
    /// Builds a deck from `cards` and shuffles the draw pile.
    pub fn new(cards: Vec<CardData>, rng: &mut StdRng) -> (deck: Self)
        ensures
            deck@.draw.to_multiset() == cards@.to_multiset(),
            deck@.draw.len() == cards@.len(),
            deck@.discard.len() == 0,
    {
        let mut draw_pile = cards;
        shuffle(&mut draw_pile, rng);
        Deck { draw_pile, discard_pile: Vec::new() }
    }

    pub fn draw_pile_len(&self) -> (len: usize)
        ensures
            len == self@.draw.len(),
    {
        self.draw_pile.len()
    }

    pub fn discard_pile_len(&self) -> (len: usize)
        ensures
            len == self@.discard.len(),
    {
        self.discard_pile.len()
    }

    /// Moves `cards` onto the discard pile, e.g. at end of turn.
    pub fn discard(&mut self, cards: Vec<CardData>)
        ensures
            final(self)@.draw == old(self)@.draw,
            final(self)@.discard == old(self)@.discard + cards@,
    {
        let mut cards = cards;
        self.discard_pile.append(&mut cards);
    }

    /// Draws a hand of up to `hand_size` cards from the top of the draw
    /// pile. If the draw pile empties partway through, the discard pile is
    /// shuffled into a fresh draw pile and drawing continues from there. If
    /// both piles run out entirely, the hand comes back short.
    pub fn draw_hand(&mut self, hand_size: usize, rng: &mut StdRng) -> (hand: Vec<CardData>)
        ensures
            drawn_as(old(self)@, hand_size as nat, hand@, final(self)@),
    {
        let ghost start = self@;
        let ghost d = start.draw.len();
        let ghost mut reshuffled = false;
        let mut hand: Vec<CardData> = Vec::new();
        while hand.len() < hand_size
            invariant_except_break
                hand@.len() <= hand_size,
            invariant
                d == start.draw.len(),
                !reshuffled ==> {
                    &&& hand@.len() <= d
                    &&& hand@ == start.draw.subrange(d - hand@.len(), d as int).reverse()
                    &&& self@.draw == start.draw.take(d - hand@.len())
                    &&& self@.discard == start.discard
                },
                reshuffled ==> {
                    &&& hand_size > d
                    &&& hand@.len() >= d
                    &&& hand@.take(d as int) == start.draw.reverse()
                    &&& self@.discard.len() == 0
                    &&& (self@.draw + hand@.skip(d as int).reverse()).to_multiset() == start.discard.to_multiset()
                },
            ensures
                hand@.len() <= hand_size,
                hand@.len() < hand_size ==> self@.draw.len() == 0 && self@.discard.len() == 0,
            decreases hand_size - hand@.len(), self@.discard.len(),
        {
            if self.draw_pile.len() > 0 {
                let ghost before_hand = hand@;
                let ghost before_draw = self@.draw;
                let card = self.draw_pile.pop().unwrap();
                hand.push(card);
                proof {
                    if !reshuffled {
                        assert(hand@ =~= start.draw.subrange(d - hand@.len(), d as int).reverse());
                        assert(self@.draw =~= start.draw.take(d - hand@.len()));
                    } else {
                        assert(hand@.take(d as int) =~= before_hand.take(d as int));
                        let rest = hand@.skip(d as int);
                        assert(rest =~= before_hand.skip(d as int).push(card));
                        assert(before_draw =~= self@.draw.push(card));
                        assert(self@.draw + rest.reverse() =~= (self@.draw + seq![card]) + before_hand.skip(
                            d as int,
                        ).reverse());
                        assert(self@.draw + seq![card] =~= before_draw);
                    }
                }
            } else if self.discard_pile.len() > 0 {
                proof {
                    if !reshuffled {
                        assert(hand@.len() == d);
                        assert(hand@.take(d as int) =~= start.draw.reverse());
                        assert(hand@.skip(d as int) =~= Seq::<CardData>::empty());
                    }
                }
                let ghost pile = self@.discard;
                self.draw_pile.append(&mut self.discard_pile);
                shuffle(&mut self.draw_pile, rng);
                proof {
                    if !reshuffled {
                        assert(hand@.skip(d as int).reverse() =~= Seq::<CardData>::empty());
                        assert(self@.draw + hand@.skip(d as int).reverse() =~= self@.draw);
                    }
                    reshuffled = true;
                }
            } else {
                break;
            }
        }
        proof {
            if !reshuffled {
                if hand_size > d {
                    assert(hand@.len() == d);
                    assert(hand@.take(d as int) =~= start.draw.reverse());
                    assert(hand@.skip(d as int) =~= Seq::<CardData>::empty());
                    assert(start.discard.len() == 0);
                    assert(self@.draw + hand@.skip(d as int).reverse() =~= Seq::<CardData>::empty());
                    assert(start.discard =~= Seq::<CardData>::empty());
                }
            } else {
                let rest = hand@.skip(d as int);
                let combined = self@.draw + rest.reverse();
                combined.to_multiset_ensures();
                start.discard.to_multiset_ensures();
                rest.reverse().to_multiset_ensures();
                assert(combined.len() == start.discard.len());
                assert(rest.reverse().len() == rest.len());
                assert(hand@.len() == d + rest.len());
                assert(hand@.len() <= d + start.discard.len());
                if hand@.len() < hand_size {
                    assert(self@.draw.len() == 0);
                    assert(hand@.len() == d + start.discard.len());
                }
            }
            let total = d + start.discard.len();
            assert(hand@.len() == if (hand_size as nat) < total { hand_size as nat } else { total });
        }
        hand
    }
}

/// Drawing loses and invents nothing: the hand and the two piles after a
/// draw hold exactly the cards the two piles held before.
pub proof fn law_drawing_conserves_cards(before: DeckView, hand_size: nat, hand: Seq<CardData>, after: DeckView)
    requires
        drawn_as(before, hand_size, hand, after),
    ensures
        (hand + after.draw + after.discard).to_multiset() == (before.draw + before.discard).to_multiset(),
{
    broadcast use vstd::seq_lib::group_to_multiset_ensures;
    let d = before.draw.len();
    if hand_size <= d {
        let top = before.draw.subrange(d - hand_size, d as int);
        assert(before.draw =~= before.draw.take(d - hand_size) + top);
        vstd::seq_lib::lemma_multiset_commutative(before.draw.take(d - hand_size), top);
        vstd::seq_lib::lemma_multiset_commutative(hand + after.draw, after.discard);
        vstd::seq_lib::lemma_multiset_commutative(hand, after.draw);
        vstd::seq_lib::lemma_multiset_commutative(before.draw, before.discard);
        lemma_reverse_multiset(top);
    } else {
        let first = hand.take(d as int);
        let rest = hand.skip(d as int);
        assert(hand =~= first + rest);
        assert(after.discard =~= Seq::<CardData>::empty());
        assert(hand + after.draw + after.discard =~= first + (rest + after.draw));
        vstd::seq_lib::lemma_multiset_commutative(first, rest + after.draw);
        vstd::seq_lib::lemma_multiset_commutative(rest, after.draw);
        vstd::seq_lib::lemma_multiset_commutative(after.draw, rest.reverse());
        lemma_reverse_multiset(rest);
        lemma_reverse_multiset(before.draw);
        vstd::seq_lib::lemma_multiset_commutative(before.draw, before.discard);
    }
}

/// Reversing a sequence keeps its items.
proof fn lemma_reverse_multiset(s: Seq<CardData>)
    ensures
        s.reverse().to_multiset() == s.to_multiset(),
    decreases s.len(),
{
    broadcast use vstd::seq_lib::group_to_multiset_ensures;
    if s.len() > 0 {
        let rest = s.drop_first();
        lemma_reverse_multiset(rest);
        assert(s.reverse() =~= rest.reverse().push(s[0]));
        assert(s =~= seq![s[0]] + rest);
        vstd::seq_lib::lemma_multiset_commutative(seq![s[0]], rest);
        assert(seq![s[0]] =~= Seq::<CardData>::empty().push(s[0]));
    }
}

} // verus!
