//! A player: identity, hand, and active status.
//!
//! The hand is an ordered sequence of cards, mutated only by appending and
//! by positional removal. Removal validates every position first and
//! either fails leaving the hand untouched, or removes all requested
//! positions at once, preserving relative order on both sides.

use vstd::prelude::*;
use crate::card::Card;
use crate::game::GameError;
use crate::text::dec_str;
use crate::text::u8_to_string;

verus! {

/// Whether some entry of `ps` equals `i`.
pub open spec fn contains_pos(ps: Seq<usize>, i: int) -> bool {
    exists|k: int| 0 <= k < ps.len() && ps[k] as int == i
}

/// Whether no position occurs twice.
pub open spec fn distinct_positions(ps: Seq<usize>) -> bool {
    forall|k1: int, k2: int| 0 <= k1 < k2 < ps.len() ==> ps[k1] != ps[k2]
}

/// Whether every position is a valid index into a hand of length `len`.
pub open spec fn positions_in_bounds(ps: Seq<usize>, len: int) -> bool {
    forall|k: int| 0 <= k < ps.len() ==> ps[k] < len
}

/// The cards among the first `i` of `hand` whose index is listed in `ps`,
/// in hand order.
pub open spec fn picked_to(hand: Seq<Card>, ps: Seq<usize>, i: int) -> Seq<Card>
    decreases i,
{
    if i <= 0 {
        Seq::empty()
    } else {
        picked_to(hand, ps, i - 1) + (if contains_pos(ps, i - 1) {
            seq![hand[i - 1]]
        } else {
            Seq::<Card>::empty()
        })
    }
}

/// The cards among the first `i` of `hand` whose index is not listed in
/// `ps`, in hand order.
pub open spec fn kept_to(hand: Seq<Card>, ps: Seq<usize>, i: int) -> Seq<Card>
    decreases i,
{
    if i <= 0 {
        Seq::empty()
    } else {
        kept_to(hand, ps, i - 1) + (if !contains_pos(ps, i - 1) {
            seq![hand[i - 1]]
        } else {
            Seq::<Card>::empty()
        })
    }
}

/// The cards of `hand` at the positions in `ps`, in hand order.
pub open spec fn picked(hand: Seq<Card>, ps: Seq<usize>) -> Seq<Card> {
    picked_to(hand, ps, hand.len() as int)
}

/// The cards of `hand` away from the positions in `ps`, in hand order.
pub open spec fn kept(hand: Seq<Card>, ps: Seq<usize>) -> Seq<Card> {
    kept_to(hand, ps, hand.len() as int)
}

/// How many entries of `ps` are below `b`.
spec fn count_lt(ps: Seq<usize>, b: int) -> int
    decreases ps.len(),
{
    if ps.len() == 0 {
        0
    } else {
        count_lt(ps.drop_first(), b) + (if (ps.first() as int) < b {
            1int
        } else {
            0int
        })
    }
}

/// How many entries of `ps` equal `v`.
spec fn count_eq(ps: Seq<usize>, v: int) -> int
    decreases ps.len(),
{
    if ps.len() == 0 {
        0
    } else {
        count_eq(ps.drop_first(), v) + (if ps.first() as int == v {
            1int
        } else {
            0int
        })
    }
}

/// For distinct positions, an entry occurs exactly once or not at all.
proof fn lemma_count_eq_of_distinct(ps: Seq<usize>, v: int)
    requires
        distinct_positions(ps),
    ensures
        count_eq(ps, v) == if contains_pos(ps, v) {
            1int
        } else {
            0int
        },
    decreases ps.len(),
{
    if ps.len() > 0 {
        let rest = ps.drop_first();
        assert(distinct_positions(rest)) by {
            assert(forall|k1: int, k2: int|
                0 <= k1 < k2 < rest.len() ==> rest[k1] == ps[k1 + 1] && rest[k2] == ps[k2 + 1]);
        }
        lemma_count_eq_of_distinct(rest, v);
        if ps.first() as int == v {
            assert(!contains_pos(rest, v)) by {
                if contains_pos(rest, v) {
                    let k = choose|k: int| 0 <= k < rest.len() && rest[k] as int == v;
                    assert(ps[k + 1] == rest[k]);
                    assert(ps[0] != ps[k + 1]);
                }
            }
            assert(contains_pos(ps, v)) by {
                assert(ps[0] as int == v);
            }
        } else {
            assert(contains_pos(ps, v) == contains_pos(rest, v)) by {
                if contains_pos(ps, v) {
                    let k = choose|k: int| 0 <= k < ps.len() && ps[k] as int == v;
                    assert(k >= 1);
                    assert(rest[k - 1] == ps[k]);
                }
                if contains_pos(rest, v) {
                    let k = choose|k: int| 0 <= k < rest.len() && rest[k] as int == v;
                    assert(ps[k + 1] == rest[k]);
                }
            }
        }
    }
}

/// Counting below `b + 1` adds the occurrences of `b` itself.
proof fn lemma_count_lt_step(ps: Seq<usize>, b: int)
    ensures
        count_lt(ps, b + 1) == count_lt(ps, b) + count_eq(ps, b),
    decreases ps.len(),
{
    if ps.len() > 0 {
        lemma_count_lt_step(ps.drop_first(), b);
    }
}

/// The picked prefix has one card per distinct listed position below `i`.
proof fn lemma_picked_to_len(hand: Seq<Card>, ps: Seq<usize>, i: int)
    requires
        distinct_positions(ps),
        0 <= i <= hand.len(),
    ensures
        picked_to(hand, ps, i).len() == count_lt(ps, i),
    decreases i,
{
    if i == 0 {
        assert(count_lt(ps, 0) == 0) by {
            lemma_count_lt_nonpos(ps, 0);
        }
    } else {
        lemma_picked_to_len(hand, ps, i - 1);
        lemma_count_lt_step(ps, i - 1);
        lemma_count_eq_of_distinct(ps, i - 1);
    }
}

/// No position counts below zero.
proof fn lemma_count_lt_nonpos(ps: Seq<usize>, b: int)
    requires
        b <= 0,
    ensures
        count_lt(ps, b) == 0,
    decreases ps.len(),
{
    if ps.len() > 0 {
        lemma_count_lt_nonpos(ps.drop_first(), b);
    }
}

/// When every position is below `b`, all of them count.
proof fn lemma_count_lt_all(ps: Seq<usize>, b: int)
    requires
        positions_in_bounds(ps, b),
    ensures
        count_lt(ps, b) == ps.len(),
    decreases ps.len(),
{
    if ps.len() > 0 {
        let rest = ps.drop_first();
        assert(positions_in_bounds(rest, b)) by {
            assert(forall|k: int| 0 <= k < rest.len() ==> rest[k] == ps[k + 1]);
        }
        lemma_count_lt_all(rest, b);
    }
}

/// A player: a stable 1-based id, a display name, the owned hand, and the
/// active flag. An eliminated player is excluded from rotation and play
/// until explicitly reactivated from outside the core.
#[derive(Debug, Clone)]
pub struct Player {
    pub id: u8,
    pub name: String,
    pub hand: Vec<Card>,
    pub is_active: bool,
}

impl Player {
    /// A fresh active player with an empty hand and the default name.
    pub fn new(id: u8) -> (r: Player)
        ensures
            r.id == id,
            r.name@ == "Player "@ + dec_str(id as int),
            r.hand@ == Seq::<Card>::empty(),
            r.is_active,
    {
        let digits = u8_to_string(id);
        Player {
            id,
            name: String::from_str("Player ").concat(digits.as_str()),
            hand: Vec::new(),
            is_active: true,
        }
    }

    /// Appends cards to the end of the hand, order preserved.
    pub fn add_cards(&mut self, cards: Vec<Card>)
        ensures
            final(self).hand@ == old(self).hand@ + cards@,
            final(self).id == old(self).id,
            final(self).name == old(self).name,
            final(self).is_active == old(self).is_active,
    {
        let mut i: usize = 0;
        while i < cards.len()
            invariant
                i <= cards@.len(),
                self.hand@ == old(self).hand@ + cards@.take(i as int),
                self.id == old(self).id,
                self.name == old(self).name,
                self.is_active == old(self).is_active,
            decreases cards@.len() - i,
        {
            self.hand.push(cards[i]);
            assert(self.hand@ =~= old(self).hand@ + cards@.take(i + 1));
            i = i + 1;
        }
        assert(self.hand@ =~= old(self).hand@ + cards@);
    }

    /// Removes the cards at the given 0-based positions, all at once.
    ///
    /// Every position must be in range and none may repeat; otherwise the
    /// call fails and the hand is left untouched. On success the removed
    /// cards come back in their original relative order, and the remaining
    /// cards keep theirs.
    pub fn remove_cards(&mut self, positions: &[usize]) -> (r: Result<Vec<Card>, GameError>)
        ensures
            r is Ok <==> positions_in_bounds(positions@, old(self).hand@.len() as int)
                && distinct_positions(positions@),
            r is Err ==> *final(self) == *old(self) && r == Err::<Vec<Card>, GameError>(
                GameError::InvalidCardPosition,
            ),
            r matches Ok(removed) ==> {
                &&& removed@ == picked(old(self).hand@, positions@)
                &&& removed@.len() == positions@.len()
                &&& final(self).hand@ == kept(old(self).hand@, positions@)
                &&& final(self).id == old(self).id
                &&& final(self).name == old(self).name
                &&& final(self).is_active == old(self).is_active
            },
    {
        let n = self.hand.len();
        let mut k: usize = 0;
        while k < positions.len()
            invariant
                k <= positions@.len(),
                n == self.hand@.len(),
                *self == *old(self),
                forall|j: int| 0 <= j < k ==> positions@[j] < n,
                forall|j1: int, j2: int| 0 <= j1 < j2 < k ==> positions@[j1] != positions@[j2],
            decreases positions@.len() - k,
        {
            if positions[k] >= n {
                return Err(GameError::InvalidCardPosition);
            }
            let mut l: usize = 0;
            while l < k
                invariant
                    l <= k < positions@.len(),
                    forall|j: int| 0 <= j < l ==> positions@[j] != positions@[k as int],
                decreases k - l,
            {
                if positions[l] == positions[k] {
                    return Err(GameError::InvalidCardPosition);
                }
                l = l + 1;
            }
            k = k + 1;
        }
        let mut removed: Vec<Card> = Vec::new();
        let mut kept_cards: Vec<Card> = Vec::new();
        let mut i: usize = 0;
        while i < n
            invariant
                i <= n,
                n == self.hand@.len(),
                *self == *old(self),
                removed@ == picked_to(self.hand@, positions@, i as int),
                kept_cards@ == kept_to(self.hand@, positions@, i as int),
            decreases n - i,
        {
            if contains_position(positions, self.hand.len(), i) {
                removed.push(self.hand[i]);
                assert(removed@ =~= picked_to(self.hand@, positions@, i + 1));
                assert(kept_cards@ =~= kept_to(self.hand@, positions@, i + 1));
            } else {
                kept_cards.push(self.hand[i]);
                assert(removed@ =~= picked_to(self.hand@, positions@, i + 1));
                assert(kept_cards@ =~= kept_to(self.hand@, positions@, i + 1));
            }
            i = i + 1;
        }
        proof {
            lemma_picked_to_len(self.hand@, positions@, n as int);
            lemma_count_lt_all(positions@, n as int);
        }
        self.hand = kept_cards;
        Ok(removed)
    }

    /// Marks the player eliminated; calling it again changes nothing.
    pub fn eliminate(&mut self)
        ensures
            !final(self).is_active,
            final(self).id == old(self).id,
            final(self).name == old(self).name,
            final(self).hand == old(self).hand,
    {
        self.is_active = false;
    }

    /// How many cards the player holds.
    pub fn cards_count(&self) -> (r: usize)
        ensures
            r == self.hand@.len(),
    {
        self.hand.len()
    }

    /// Whether the player has won: still active with an empty hand.
    pub fn has_won(&self) -> (r: bool)
        ensures
            r == (self.is_active && self.hand@.len() == 0),
    {
        self.is_active && self.hand.is_empty()
    }
}

/// Whether `i` occurs in `positions` (a linear scan; position lists are
/// small).
fn contains_position(positions: &[usize], n: usize, i: usize) -> (r: bool)
    ensures
        r == contains_pos(positions@, i as int),
{
    let mut k: usize = 0;
    while k < positions.len()
        invariant
            k <= positions@.len(),
            forall|j: int| 0 <= j < k ==> positions@[j] != i,
        decreases positions@.len() - k,
    {
        if positions[k] == i {
            return true;
        }
        k = k + 1;
    }
    false
}

} // verus!
