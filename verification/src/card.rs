//! Card values and the deck.
//!
//! A deck starts with four cards of each rank (sixteen in all), is shuffled
//! once, and is then drained from the front by `deal`; it is never
//! replenished.

use vstd::prelude::*;
use rand::rngs::OsRng;
use rand::seq::SliceRandom;

verus! {

use vstd::math::min;
use vstd::math::max;

/// The rank of a card. A `Joker` matches any declared rank during a
/// challenge and so never makes a play untruthful by itself.
#[derive(Debug, Clone, Copy, PartialEq, Eq, Structural)]
pub enum CardType {
    Ace,
    Queen,
    King,
    Joker,
}

impl CardType {
    /// The spelled-out name of the rank.
    pub open spec fn label(self) -> Seq<char> {
        match self {
            CardType::Ace => "ACE"@,
            CardType::Queen => "QUEEN"@,
            CardType::King => "KING"@,
            CardType::Joker => "JOKER"@,
        }
    }

    /// Renders the rank name, as it is shown to a player.
    pub fn to_string(&self) -> (r: String)
        ensures
            r@ == self.label(),
    {
        match self {
            CardType::Ace => String::from_str("ACE"),
            CardType::Queen => String::from_str("QUEEN"),
            CardType::King => String::from_str("KING"),
            CardType::Joker => String::from_str("JOKER"),
        }
    }
}

/// A card: a rank together with a decorative suit id (1 to 4).
/// Equality and the rank are the only fields the rules read.
#[derive(Debug, Clone, Copy, PartialEq, Eq, Structural)]
pub struct Card {
    pub card_type: CardType,
    pub id: u8,
}

impl Card {
    /// The suit mark that belongs to a suit id.
    pub open spec fn suit_mark(id: u8) -> Seq<char> {
        if id == 1 {
            "\u{2660}"@
        } else if id == 2 {
            "\u{2665}"@
        } else if id == 3 {
            "\u{2666}"@
        } else if id == 4 {
            "\u{2663}"@
        } else {
            "?"@
        }
    }

    /// The short rendering of a card: rank letter plus suit mark, or the
    /// word `Joker`.
    pub open spec fn label(self) -> Seq<char> {
        match self.card_type {
            CardType::Ace => "A"@ + Card::suit_mark(self.id),
            CardType::Queen => "Q"@ + Card::suit_mark(self.id),
            CardType::King => "K"@ + Card::suit_mark(self.id),
            CardType::Joker => "Joker"@,
        }
    }

    /// Renders the card as it is shown in a hand listing.
    pub fn to_string(&self) -> (r: String)
        ensures
            r@ == self.label(),
    {
        let suit: &str = if self.id == 1 {
            "\u{2660}"
        } else if self.id == 2 {
            "\u{2665}"
        } else if self.id == 3 {
            "\u{2666}"
        } else if self.id == 4 {
            "\u{2663}"
        } else {
            "?"
        };
        match self.card_type {
            CardType::Ace => String::from_str("A").concat(suit),
            CardType::Queen => String::from_str("Q").concat(suit),
            CardType::King => String::from_str("K").concat(suit),
            CardType::Joker => String::from_str("Joker"),
        }
    }
}

/// The four cards of one rank, suit ids 1 to 4 in order.
pub open spec fn suite(t: CardType) -> Seq<Card> {
    seq![
        Card { card_type: t, id: 1 },
        Card { card_type: t, id: 2 },
        Card { card_type: t, id: 3 },
        Card { card_type: t, id: 4 },
    ]
}

/// The full deck in construction order: four cards of each rank.
pub open spec fn fresh_deck() -> Seq<Card> {
    suite(CardType::Ace) + suite(CardType::Queen) + suite(CardType::King) + suite(CardType::Joker)
}

/// How many cards of one rank a sequence holds.
pub open spec fn count_rank(cards: Seq<Card>, t: CardType) -> int
    decreases cards.len(),
{
    if cards.len() == 0 {
        0
    } else {
        count_rank(cards.drop_last(), t) + (if cards.last().card_type == t {
            1int
        } else {
            0int
        })
    }
}

/// Counting a rank distributes over concatenation.
proof fn lemma_count_rank_concat(a: Seq<Card>, b: Seq<Card>, t: CardType)
    ensures
        count_rank(a + b, t) == count_rank(a, t) + count_rank(b, t),
    decreases b.len(),
{
    if b.len() == 0 {
        assert(a + b =~= a);
    } else {
        lemma_count_rank_concat(a, b.drop_last(), t);
        assert((a + b).drop_last() =~= a + b.drop_last());
        assert((a + b).last() == b.last());
    }
}

/// One rank's suite holds four cards of that rank and none of any other.
proof fn lemma_count_rank_suite(u: CardType, t: CardType)
    ensures
        count_rank(suite(u), t) == if u == t {
            4int
        } else {
            0int
        },
{
    let c1 = Card { card_type: u, id: 1 };
    let c2 = Card { card_type: u, id: 2 };
    let c3 = Card { card_type: u, id: 3 };
    let c4 = Card { card_type: u, id: 4 };
    let s4 = suite(u);
    let s3 = seq![c1, c2, c3];
    let s2 = seq![c1, c2];
    let s1 = seq![c1];
    let s0 = Seq::<Card>::empty();
    assert(s4.drop_last() =~= s3);
    assert(s3.drop_last() =~= s2);
    assert(s2.drop_last() =~= s1);
    assert(s1.drop_last() =~= s0);
    assert(count_rank(s0, t) == 0);
    assert(count_rank(s1, t) == count_rank(s0, t) + (if u == t {
        1int
    } else {
        0int
    }));
    assert(count_rank(s2, t) == count_rank(s1, t) + (if u == t {
        1int
    } else {
        0int
    }));
    assert(count_rank(s3, t) == count_rank(s2, t) + (if u == t {
        1int
    } else {
        0int
    }));
    assert(count_rank(s4, t) == count_rank(s3, t) + (if u == t {
        1int
    } else {
        0int
    }));
}

/// The fresh deck holds sixteen cards, exactly four of each rank.
pub proof fn lemma_fresh_deck_counts(t: CardType)
    ensures
        fresh_deck().len() == 16,
        count_rank(fresh_deck(), t) == 4,
{
    let a = suite(CardType::Ace);
    let q = suite(CardType::Queen);
    let k = suite(CardType::King);
    let j = suite(CardType::Joker);
    lemma_count_rank_concat(a, q, t);
    lemma_count_rank_concat(a + q, k, t);
    lemma_count_rank_concat(a + q + k, j, t);
    lemma_count_rank_suite(CardType::Ace, t);
    lemma_count_rank_suite(CardType::Queen, t);
    lemma_count_rank_suite(CardType::King, t);
    lemma_count_rank_suite(CardType::Joker, t);
}

/// An ordered collection of cards, dealt from the front.
#[derive(Debug, Clone)]
pub struct Deck {
    pub cards: Vec<Card>,
}

impl Deck {
    /// Builds the full sixteen-card deck in construction order.
    pub fn new() -> (r: Deck)
        ensures
            r.cards@ == fresh_deck(),
    {
        let mut cards: Vec<Card> = Vec::new();
        push_suite(&mut cards, CardType::Ace);
        push_suite(&mut cards, CardType::Queen);
        push_suite(&mut cards, CardType::King);
        push_suite(&mut cards, CardType::Joker);
        assert(cards@ =~= fresh_deck());
        Deck { cards }
    }

    /// Relies on rand's `SliceRandom::shuffle` with `OsRng`: an in-place
    /// random permutation of the slice, so the cards are reordered and
    /// nothing is added or lost.
    #[verifier::external_body]
    pub fn shuffle(&mut self)
        ensures
            final(self).cards@.to_multiset() == old(self).cards@.to_multiset(),
            final(self).cards@.len() == old(self).cards@.len(),
    {
        self.cards.shuffle(&mut OsRng);
    }

    /// Removes and returns the first `min(count, remaining)` cards in deck
    /// order. Never fails: a short deck silently under-delivers.
    pub fn deal(&mut self, count: usize) -> (r: Vec<Card>)
        ensures
            r@ == old(self).cards@.take(min(count as int, old(self).cards@.len() as int)),
            final(self).cards@ == old(self).cards@.skip(
                min(count as int, old(self).cards@.len() as int),
            ),
            r@.len() == min(count as int, old(self).cards@.len() as int),
            final(self).cards@.len() == max(
                0,
                old(self).cards@.len() - count as int,
            ),
    {
        let k: usize = if count <= self.cards.len() {
            count
        } else {
            self.cards.len()
        };
        let mut dealt: Vec<Card> = Vec::new();
        let mut i: usize = 0;
        while i < k
            invariant
                i <= k <= self.cards@.len(),
                self.cards@ == old(self).cards@,
                dealt@ == self.cards@.take(i as int),
            decreases k - i,
        {
            dealt.push(self.cards[i]);
            assert(dealt@ =~= self.cards@.take(i + 1));
            i = i + 1;
        }
        let mut rest: Vec<Card> = Vec::new();
        let mut j: usize = k;
        while j < self.cards.len()
            invariant
                k <= j <= self.cards@.len(),
                self.cards@ == old(self).cards@,
                rest@ == self.cards@.subrange(k as int, j as int),
            decreases self.cards@.len() - j,
        {
            rest.push(self.cards[j]);
            assert(rest@ =~= self.cards@.subrange(k as int, j + 1));
            j = j + 1;
        }
        assert(rest@ =~= self.cards@.skip(k as int));
        self.cards = rest;
        dealt
    }

    /// How many cards are left in the deck.
    pub fn remaining(&self) -> (r: usize)
        ensures
            r == self.cards@.len(),
    {
        self.cards.len()
    }
}

impl Default for Deck {
    /// A fresh full deck.
    fn default() -> (r: Deck)
        ensures
            r.cards@ == fresh_deck(),
    {
        Deck::new()
    }
}

/// Appends the four cards of one rank, suit ids 1 to 4.
fn push_suite(cards: &mut Vec<Card>, t: CardType)
    ensures
        final(cards)@ == old(cards)@ + suite(t),
{
    cards.push(Card { card_type: t, id: 1 });
    cards.push(Card { card_type: t, id: 2 });
    cards.push(Card { card_type: t, id: 3 });
    cards.push(Card { card_type: t, id: 4 });
    assert(cards@ =~= old(cards)@ + suite(t));
}

} // verus!
