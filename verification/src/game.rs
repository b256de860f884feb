//! The game state machine: turn order, the declare/challenge protocol,
//! elimination, and win detection.
//!
//! Turn rotation is circular over exactly the set of active player ids in
//! ascending order; the lemmas at the end of this module prove that
//! advancing once per active player returns to the starting player.

use vstd::prelude::*;
use crate::card::Card;
use crate::card::CardType;
use crate::card::Deck;
use crate::card::fresh_deck;
use crate::player::Player;
use crate::player::positions_in_bounds;
use crate::player::distinct_positions;
use crate::roulette::RouletteConfig;
use crate::roulette::RouletteResult;

verus! {

use vstd::math::min;
use vstd::math::max;
use vstd::arithmetic::div_mod::lemma_fundamental_div_mod;
use vstd::arithmetic::div_mod::lemma_fundamental_div_mod_converse_mod;
use vstd::arithmetic::div_mod::lemma_mod_division_less_than_divisor;

/// Everything that can go wrong while driving the game.
///
/// Every error is terminal for the triggering command only: the game state
/// is left exactly as it was before the failed command.
#[derive(Debug)]
pub enum GameError {
    /// A construction-time player count outside the supported range.
    InvalidPlayerCount,
    /// A construction-time bullet count outside the supported range.
    InvalidBulletCount,
    /// An out-of-range or repeated card position.
    InvalidCardPosition,
    /// An unrecognized declared rank at the interface boundary.
    InvalidCardType,
    /// An unknown id, or an operation aimed at an eliminated player.
    PlayerNotFound,
    /// No stored game state was found by the calling layer.
    GameNotInitialized,
    /// A command that the current state refuses, such as playing out of turn.
    InvalidCommand,
    /// An input/output failure reported by the calling layer.
    IoError(String),
    /// Dealing was attempted after the game had already started.
    GameAlreadyStarted,
    /// A strict-deal policy found the deck too short.
    NotEnoughCards,
    /// A challenge was issued with no play pending.
    NoLastPlay,
}

impl GameError {
    /// The descriptive message for an error.
    pub open spec fn message_spec(self) -> Seq<char> {
        match self {
            GameError::InvalidPlayerCount => "Invalid player count. Must be 2-3."@,
            GameError::InvalidBulletCount => "Invalid bullet count. Must be 1-6."@,
            GameError::InvalidCardPosition => "Invalid card position."@,
            GameError::InvalidCardType => "Invalid card type. Use 'ace', 'queen', or 'king'."@,
            GameError::PlayerNotFound => "Player not found."@,
            GameError::GameNotInitialized => "Game not initialized. Use 'liars_table init' first."@,
            GameError::InvalidCommand => "Invalid command."@,
            GameError::IoError(msg) => "IO Error: "@ + msg@,
            GameError::GameAlreadyStarted => "Game already started."@,
            GameError::NotEnoughCards => "Not enough cards in deck."@,
            GameError::NoLastPlay => "No previous play to challenge."@,
        }
    }

    /// Renders the error as it is reported to the caller.
    pub fn message(&self) -> (r: String)
        ensures
            r@ == self.message_spec(),
    {
        match self {
            GameError::InvalidPlayerCount => String::from_str("Invalid player count. Must be 2-3."),
            GameError::InvalidBulletCount => String::from_str("Invalid bullet count. Must be 1-6."),
            GameError::InvalidCardPosition => String::from_str("Invalid card position."),
            GameError::InvalidCardType => String::from_str(
                "Invalid card type. Use 'ace', 'queen', or 'king'.",
            ),
            GameError::PlayerNotFound => String::from_str("Player not found."),
            GameError::GameNotInitialized => String::from_str(
                "Game not initialized. Use 'liars_table init' first.",
            ),
            GameError::InvalidCommand => String::from_str("Invalid command."),
            GameError::IoError(msg) => String::from_str("IO Error: ").concat(msg.as_str()),
            GameError::GameAlreadyStarted => String::from_str("Game already started."),
            GameError::NotEnoughCards => String::from_str("Not enough cards in deck."),
            GameError::NoLastPlay => String::from_str("No previous play to challenge."),
        }
    }
}

/// The most recent unchallenged play: who played, which cards actually
/// left the hand, and which rank was declared for them.
#[derive(Debug, Clone)]
pub struct LastPlay {
    pub player_id: u8,
    pub cards: Vec<Card>,
    pub declared_type: CardType,
}

/// What a challenge reveals: whose play was challenged, the actual cards,
/// the declared rank, and the verdict.
#[derive(Debug, Clone)]
pub struct ChallengeResult {
    pub target_player: u8,
    pub actual_cards: Vec<Card>,
    pub declared_type: CardType,
    pub is_liar: bool,
}

/// Whether player ids match positions: the player at index `i` has id
/// `i + 1`. Construction guarantees this, and every operation keeps it.
pub open spec fn ids_positional(players: Seq<Player>) -> bool {
    forall|i: int| 0 <= i < players.len() ==> players[i].id as int == i + 1
}

/// The ids of the active players, in player order (ascending when ids are
/// positional).
pub open spec fn active_ids(players: Seq<Player>) -> Seq<u8>
    decreases players.len(),
{
    if players.len() == 0 {
        Seq::empty()
    } else {
        active_ids(players.drop_last()) + (if players.last().is_active {
            seq![players.last().id]
        } else {
            Seq::<u8>::empty()
        })
    }
}

/// Whether some active player carries this id.
pub open spec fn is_active_id(players: Seq<Player>, id: u8) -> bool {
    exists|i: int| 0 <= i < players.len() && players[i].id == id && players[i].is_active
}

/// The index of the first element of `ids` greater than `cur`, or
/// `ids.len()` if there is none.
pub open spec fn first_greater(ids: Seq<u8>, cur: u8) -> int
    decreases ids.len(),
{
    if ids.len() == 0 {
        0
    } else if ids.first() > cur {
        0
    } else {
        1 + first_greater(ids.drop_first(), cur)
    }
}

/// The id that holds the turn after `cur`: the smallest active id above
/// `cur`, wrapping to the smallest active id overall.
pub open spec fn next_active(players: Seq<Player>, cur: u8) -> u8 {
    let ids = active_ids(players);
    let j = first_greater(ids, cur);
    if j < ids.len() {
        ids[j]
    } else {
        ids[0]
    }
}

/// `cur` advanced `n` times through the rotation.
pub open spec fn rotate_n(players: Seq<Player>, cur: u8, n: nat) -> u8
    decreases n,
{
    if n == 0 {
        cur
    } else {
        next_active(players, rotate_n(players, cur, (n - 1) as nat))
    }
}

/// Whether a play is truthful: every card's rank is the declared rank or
/// a Joker, which matches anything.
pub open spec fn is_truthful(cards: Seq<Card>, declared: CardType) -> bool {
    forall|i: int|
        0 <= i < cards.len() ==> cards[i].card_type == declared || cards[i].card_type
            == CardType::Joker
}

/// The index of the first player that is active with an empty hand, or
/// `players.len()` if there is none.
pub open spec fn first_won_index(players: Seq<Player>) -> int
    decreases players.len(),
{
    if players.len() == 0 {
        0
    } else if players.first().is_active && players.first().hand@.len() == 0 {
        0
    } else {
        1 + first_won_index(players.drop_first())
    }
}

/// How many cards the `j`-th active recipient receives when dealing five
/// at a time from a deck that started with `len` cards: five, or whatever
/// is left.
pub open spec fn deal_take(len: int, j: int) -> int {
    min(5, max(0, len - 5 * j))
}

/// The cards the first `i` players received in one dealing round: each
/// active player's hand extension past its original length, in roster
/// order.
pub open spec fn dealt_to(olds: Seq<Player>, news: Seq<Player>, i: int) -> Seq<Card>
    decreases i,
{
    if i <= 0 {
        Seq::empty()
    } else {
        dealt_to(olds, news, i - 1) + (if olds[i - 1].is_active {
            news[i - 1].hand@.skip(olds[i - 1].hand@.len() as int)
        } else {
            Seq::<Card>::empty()
        })
    }
}

/// All cards dealt out of the deck in one dealing round.
pub open spec fn dealt_cards(olds: Seq<Player>, news: Seq<Player>) -> Seq<Card> {
    dealt_to(olds, news, olds.len() as int)
}

/// `dealt_to` reads only the players below `i`.
proof fn lemma_dealt_to_agrees(olds: Seq<Player>, a: Seq<Player>, b: Seq<Player>, i: int)
    requires
        forall|j: int| 0 <= j < i ==> a[j] == b[j],
    ensures
        dealt_to(olds, a, i) == dealt_to(olds, b, i),
    decreases i,
{
    if i > 0 {
        lemma_dealt_to_agrees(olds, a, b, i - 1);
    }
}

/// The aggregate game state. The calling layer issues one command at a
/// time against it and persists a snapshot after each success.
#[derive(Debug, Clone)]
pub struct Game {
    pub players: Vec<Player>,
    pub current_player: u8,
    pub roulette_config: RouletteConfig,
    pub deck: Deck,
    pub last_play: Option<LastPlay>,
    pub is_started: bool,
}

impl Game {
    /// Structural well-formedness: ids match positions (so they are
    /// unique and ascending) and the cylinder configuration is sound.
    pub open spec fn wf(self) -> bool {
        &&& ids_positional(self.players@)
        &&& self.roulette_config.wf()
    }

    /// The turn invariant: while any player is active, the turn belongs
    /// to an active player. With no active players the rotation is
    /// undefined and the state is terminal.
    pub open spec fn turn_ok(self) -> bool {
        active_ids(self.players@).len() > 0 ==> is_active_id(self.players@, self.current_player)
    }

    /// Builds a game with `player_count` fresh active players (ids
    /// `1..=player_count`), the turn on player 1, a full deck, and a
    /// six-chamber cylinder loaded with `bullet_count` bullets.
    ///
    /// Two or three players and one to six bullets are supported; anything
    /// else is rejected before any state exists.
    pub fn new(player_count: u8, bullet_count: u8) -> (r: Result<Game, GameError>)
        ensures
            (player_count < 2 || player_count > 3) ==> (r matches Err(e) && e
                == GameError::InvalidPlayerCount),
            2 <= player_count <= 3 && (bullet_count < 1 || bullet_count > 6) ==> (r matches Err(e)
                && e == GameError::InvalidBulletCount),
            2 <= player_count <= 3 && 1 <= bullet_count <= 6 ==> (r matches Ok(g) && {
                &&& g.players@.len() == player_count
                &&& forall|i: int|
                    0 <= i < g.players@.len() ==> (#[trigger] g.players@[i]).id as int == i + 1
                        && g.players@[i].is_active && g.players@[i].hand@.len() == 0
                &&& g.current_player == 1
                &&& g.roulette_config == (RouletteConfig {
                    chambers: 6,
                    loaded_bullets: bullet_count,
                })
                &&& g.deck.cards@ == fresh_deck()
                &&& g.last_play is None
                &&& !g.is_started
                &&& g.wf()
                &&& g.turn_ok()
            }),
    {
        if player_count < 2 || player_count > 3 {
            return Err(GameError::InvalidPlayerCount);
        }
        if bullet_count < 1 || bullet_count > 6 {
            return Err(GameError::InvalidBulletCount);
        }
        let mut players: Vec<Player> = Vec::new();
        let mut i: u8 = 1;
        while i <= player_count
            invariant
                player_count <= 3,
                1 <= i <= player_count + 1,
                players@.len() == i - 1,
                forall|j: int|
                    0 <= j < players@.len() ==> (#[trigger] players@[j]).id as int == j + 1
                        && players@[j].is_active && players@[j].hand@.len() == 0,
            decreases player_count + 1 - i,
        {
            players.push(Player::new(i));
            i = i + 1;
        }
        let game = Game {
            players,
            current_player: 1,
            roulette_config: RouletteConfig::new(bullet_count),
            deck: Deck::new(),
            last_play: None,
            is_started: false,
        };
        proof {
            assert(is_active_id(game.players@, 1)) by {
                assert(game.players@[0].id == 1 && game.players@[0].is_active);
            }
        }
        Ok(game)
    }

    /// Looks up a player by id. With positional ids this is the player at
    /// index `id - 1`; an unknown id is `PlayerNotFound`.
    pub fn find_player(&self, player_id: u8) -> (r: Result<&Player, GameError>)
        requires
            self.wf(),
        ensures
            1 <= player_id as int <= self.players@.len() ==> (r matches Ok(p) && *p
                == self.players@[player_id as int - 1]),
            !(1 <= player_id as int <= self.players@.len()) ==> (r matches Err(e) && e
                == GameError::PlayerNotFound),
    {
        let mut i: usize = 0;
        while i < self.players.len()
            invariant
                self.wf(),
                i <= self.players@.len(),
                forall|j: int| 0 <= j < i ==> (#[trigger] self.players@[j]).id != player_id,
            decreases self.players@.len() - i,
        {
            if self.players[i].id == player_id {
                proof {
                    assert(self.players@[i as int].id as int == i + 1);
                }
                return Ok(&self.players[i]);
            }
            i = i + 1;
        }
        proof {
            if 1 <= player_id as int <= self.players@.len() {
                assert(self.players@[player_id as int - 1].id as int == player_id as int);
                assert(false);
            }
        }
        Err(GameError::PlayerNotFound)
    }

    /// Looks up a player by id for mutation. The rest of the game state
    /// is untouched; the caller's writes through the returned reference
    /// land at index `id - 1`.
    pub fn find_player_mut(&mut self, player_id: u8) -> (r: Result<&mut Player, GameError>)
        requires
            old(self).wf(),
        ensures
            1 <= player_id as int <= old(self).players@.len() ==> (r matches Ok(p) && *p == old(
                self,
            ).players@[player_id as int - 1] && final(self).players@ == old(
                self,
            ).players@.update(player_id as int - 1, *final(p))),
            !(1 <= player_id as int <= old(self).players@.len()) ==> (r matches Err(e) && e
                == GameError::PlayerNotFound && *final(self) == *old(self)),
            final(self).current_player == old(self).current_player,
            final(self).roulette_config == old(self).roulette_config,
            final(self).deck == old(self).deck,
            final(self).last_play == old(self).last_play,
            final(self).is_started == old(self).is_started,
    {
        let mut i: usize = 0;
        let n = self.players.len();
        while i < n
            invariant
                *self == *old(self),
                self.wf(),
                n == self.players@.len(),
                i <= n,
                forall|j: int| 0 <= j < i ==> (#[trigger] self.players@[j]).id != player_id,
            decreases n - i,
        {
            if self.players[i].id == player_id {
                proof {
                    assert(self.players@[i as int].id as int == i + 1);
                }
                return Ok(&mut self.players[i]);
            }
            i = i + 1;
        }
        proof {
            if 1 <= player_id as int <= self.players@.len() {
                assert(self.players@[player_id as int - 1].id as int == player_id as int);
                assert(false);
            }
        }
        Err(GameError::PlayerNotFound)
    }

    /// Collects the active ids in player order.
    fn collect_active_ids(&self) -> (r: Vec<u8>)
        ensures
            r@ == active_ids(self.players@),
    {
        let mut ids: Vec<u8> = Vec::new();
        let mut i: usize = 0;
        proof {
            assert(self.players@.take(0) =~= Seq::<Player>::empty());
        }
        while i < self.players.len()
            invariant
                i <= self.players@.len(),
                ids@ == active_ids(self.players@.take(i as int)),
            decreases self.players@.len() - i,
        {
            if self.players[i].is_active {
                ids.push(self.players[i].id);
            }
            proof {
                lemma_active_ids_take_step(self.players@, i as int);
            }
            i = i + 1;
        }
        proof {
            assert(self.players@.take(self.players@.len() as int) =~= self.players@);
        }
        ids
    }

    /// Moves the turn to the next active player in ascending circular id
    /// order: the smallest active id above the current one, wrapping to
    /// the smallest active id. With no active players nothing changes.
    pub fn advance_turn(&mut self)
        requires
            old(self).wf(),
        ensures
            final(self).players == old(self).players,
            final(self).deck == old(self).deck,
            final(self).last_play == old(self).last_play,
            final(self).is_started == old(self).is_started,
            final(self).roulette_config == old(self).roulette_config,
            final(self).wf(),
            active_ids(old(self).players@).len() == 0 ==> final(self).current_player == old(
                self,
            ).current_player,
            active_ids(old(self).players@).len() > 0 ==> final(self).current_player == next_active(
                old(self).players@,
                old(self).current_player,
            ),
            active_ids(old(self).players@).len() > 0 ==> is_active_id(
                final(self).players@,
                final(self).current_player,
            ),
    {
        let ids = self.collect_active_ids();
        let n = ids.len();
        if n == 0 {
            return ;
        }
        let cur = self.current_player;
        let ghost gids = active_ids(self.players@);
        let mut j: usize = 0;
        let mut found: usize = n;
        while j < n
            invariant
                j <= n,
                found <= n,
                n == ids@.len(),
                ids@ == gids,
                found < n ==> found < j && ids@[found as int] > cur && (forall|l: int|
                    0 <= l < found ==> ids@[l] <= cur),
                found == n ==> forall|l: int| 0 <= l < j ==> ids@[l] <= cur,
            decreases n - j,
        {
            if found == n && ids[j] > cur {
                found = j;
            }
            j = j + 1;
        }
        proof {
            lemma_first_greater_props(gids, cur);
            let fg = first_greater(gids, cur);
            if found < n {
                if fg < found {
                    assert(gids[fg] <= cur);
                    assert(false);
                } else if fg > found {
                    assert(gids[found as int] <= cur);
                    assert(false);
                }
            } else {
                if fg < gids.len() {
                    assert(gids[fg] <= cur);
                    assert(false);
                }
            }
        }
        if found < n {
            self.current_player = ids[found];
        } else {
            self.current_player = ids[0];
        }
        proof {
            lemma_active_ids_members(old(self).players@);
            assert(gids.contains(self.current_player)) by {
                if found < n {
                    assert(gids[found as int] == self.current_player);
                } else {
                    assert(gids[0] == self.current_player);
                }
            }
        }
    }

    /// Plays cards from the current player's hand.
    ///
    /// Turn order is enforced strictly, the removal is atomic, and the
    /// play is recorded unconditionally: truthfulness is only judged when
    /// someone challenges. Afterwards the turn moves to the next active
    /// player in ascending circular id order.
    pub fn play_cards(
        &mut self,
        player_id: u8,
        card_positions: Vec<usize>,
        declared_type: CardType,
    ) -> (r: Result<(), GameError>)
        requires
            old(self).wf(),
        ensures
            final(self).wf(),
            old(self).turn_ok() ==> final(self).turn_ok(),
            r is Err ==> same_game(*old(self), *final(self)),
            player_id != old(self).current_player ==> (r matches Err(e) && e
                == GameError::InvalidCommand),
            player_id == old(self).current_player && !(1 <= player_id as int <= old(
                self,
            ).players@.len()) ==> (r matches Err(e) && e == GameError::PlayerNotFound),
            player_id == old(self).current_player && 1 <= player_id as int <= old(
                self,
            ).players@.len() && !old(self).players@[player_id as int - 1].is_active ==> (
            r matches Err(e) && e == GameError::PlayerNotFound),
            player_id == old(self).current_player && 1 <= player_id as int <= old(
                self,
            ).players@.len() && old(self).players@[player_id as int - 1].is_active && !(
            positions_in_bounds(
                card_positions@,
                old(self).players@[player_id as int - 1].hand@.len() as int,
            ) && distinct_positions(card_positions@)) ==> (r matches Err(e) && e
                == GameError::InvalidCardPosition),
            r is Ok <==> (player_id == old(self).current_player && 1 <= player_id as int <= old(
                self,
            ).players@.len() && old(self).players@[player_id as int - 1].is_active
                && positions_in_bounds(
                card_positions@,
                old(self).players@[player_id as int - 1].hand@.len() as int,
            ) && distinct_positions(card_positions@)),
            r is Ok ==> ({
                let idx = player_id as int - 1;
                let oldp = old(self).players@[idx];
                &&& final(self).players@.len() == old(self).players@.len()
                &&& forall|i: int|
                    0 <= i < old(self).players@.len() && i != idx ==> final(self).players@[i]
                        == old(self).players@[i]
                &&& final(self).players@[idx].id == oldp.id
                &&& final(self).players@[idx].name == oldp.name
                &&& final(self).players@[idx].is_active == oldp.is_active
                &&& final(self).players@[idx].hand@ == crate::player::kept(
                    oldp.hand@,
                    card_positions@,
                )
                &&& (final(self).last_play matches Some(lp) && lp.player_id == player_id
                    && lp.cards@ == crate::player::picked(oldp.hand@, card_positions@)
                    && lp.declared_type == declared_type)
                &&& final(self).current_player == next_active(old(self).players@, player_id)
                &&& is_active_id(final(self).players@, final(self).current_player)
                &&& final(self).deck.cards@ == old(self).deck.cards@
                &&& final(self).roulette_config == old(self).roulette_config
                &&& final(self).is_started == old(self).is_started
            }),
    {
        if player_id != self.current_player {
            return Err(GameError::InvalidCommand);
        }
        if player_id < 1 || player_id as usize > self.players.len() {
            return Err(GameError::PlayerNotFound);
        }
        let idx: usize = (player_id - 1) as usize;
        proof {
            assert(self.players@[idx as int].id as int == idx + 1);
        }
        if !self.players[idx].is_active {
            return Err(GameError::PlayerNotFound);
        }
        let p = &mut self.players[idx];
        let res = p.remove_cards(card_positions.as_slice());
        match res {
            Err(e) => {
                proof {
                    assert(self.players@ =~= old(self).players@);
                }
                Err(e)
            },
            Ok(cards) => {
                self.last_play = Some(LastPlay { player_id, cards, declared_type });
                proof {
                    assert(ids_positional(self.players@)) by {
                        assert(forall|i: int|
                            0 <= i < self.players@.len() ==> (#[trigger] self.players@[i]).id
                                == old(self).players@[i].id);
                    }
                    assert(same_roster(old(self).players@, self.players@)) by {
                        assert(forall|i: int|
                            0 <= i < self.players@.len() ==> (#[trigger] self.players@[i]).id
                                == old(self).players@[i].id && self.players@[i].is_active == old(
                                self,
                            ).players@[i].is_active);
                    }
                    lemma_active_ids_same(old(self).players@, self.players@);
                    lemma_active_ids_members(self.players@);
                    assert(is_active_id(self.players@, player_id)) by {
                        assert(self.players@[idx as int].id == player_id
                            && self.players@[idx as int].is_active);
                    }
                    assert(active_ids(self.players@).contains(player_id));
                    assert(active_ids(self.players@).len() > 0);
                }
                self.advance_turn();
                Ok(())
            },
        }
    }

    /// Resolves a pending play: reveals the actual cards, judges the
    /// declared rank against them, and consumes the play, so each play
    /// can be challenged at most once.
    ///
    /// The verdict is `is_liar` exactly when some card is neither of the
    /// declared rank nor a Joker. The caller decides who faces
    /// elimination; no turn moves here.
    pub fn challenge(&mut self, challenger_id: u8) -> (r: Result<ChallengeResult, GameError>)
        requires
            old(self).wf(),
        ensures
            final(self).wf(),
            old(self).turn_ok() ==> final(self).turn_ok(),
            r is Err ==> same_game(*old(self), *final(self)),
            old(self).last_play is None ==> (r matches Err(e) && e == GameError::NoLastPlay),
            old(self).last_play is Some && !(1 <= challenger_id as int <= old(
                self,
            ).players@.len() && old(self).players@[challenger_id as int - 1].is_active) ==> (
            r matches Err(e) && e == GameError::PlayerNotFound),
            r is Ok <==> (old(self).last_play is Some && 1 <= challenger_id as int <= old(
                self,
            ).players@.len() && old(self).players@[challenger_id as int - 1].is_active),
            r matches Ok(c) ==> (old(self).last_play matches Some(lp) && {
                &&& c.target_player == lp.player_id
                &&& c.actual_cards@ == lp.cards@
                &&& c.declared_type == lp.declared_type
                &&& c.is_liar == !is_truthful(lp.cards@, lp.declared_type)
                &&& final(self).last_play is None
                &&& final(self).players@ == old(self).players@
                &&& final(self).current_player == old(self).current_player
                &&& final(self).deck.cards@ == old(self).deck.cards@
                &&& final(self).roulette_config == old(self).roulette_config
                &&& final(self).is_started == old(self).is_started
            }),
    {
        let (target, actual, dt, liar) = match &self.last_play {
            None => {
                return Err(GameError::NoLastPlay);
            },
            Some(lp) => {
                if challenger_id < 1 || challenger_id as usize > self.players.len() {
                    return Err(GameError::PlayerNotFound);
                }
                let cidx: usize = (challenger_id - 1) as usize;
                proof {
                    assert(self.players@[cidx as int].id as int == cidx + 1);
                }
                if !self.players[cidx].is_active {
                    return Err(GameError::PlayerNotFound);
                }
                let mut truthful = true;
                let mut i: usize = 0;
                while i < lp.cards.len()
                    invariant
                        i <= lp.cards@.len(),
                        truthful <==> (forall|j: int|
                            0 <= j < i ==> (#[trigger] lp.cards@[j]).card_type == lp.declared_type
                                || lp.cards@[j].card_type == CardType::Joker),
                    decreases lp.cards@.len() - i,
                {
                    let ct = lp.cards[i].card_type;
                    if !(ct == lp.declared_type || ct == CardType::Joker) {
                        truthful = false;
                    }
                    i = i + 1;
                }
                (lp.player_id, clone_cards(&lp.cards), lp.declared_type, !truthful)
            },
        };
        self.last_play = None;
        Ok(ChallengeResult { target_player: target, actual_cards: actual, declared_type: dt, is_liar: liar })
    }

    /// Draws one elimination outcome against the target player.
    ///
    /// On `Out` the target is eliminated; if the target held the turn,
    /// the turn moves at once to the next active player, so the turn is
    /// never left resting on an eliminated player. On `Safe` the state,
    /// the turn included, is untouched.
    pub fn execute_roulette(&mut self, target_id: u8) -> (r: Result<RouletteResult, GameError>)
        requires
            old(self).wf(),
        ensures
            final(self).wf(),
            r is Err ==> same_game(*old(self), *final(self)),
            !(1 <= target_id as int <= old(self).players@.len() && old(self).players@[target_id
                as int - 1].is_active) ==> (r matches Err(e) && e == GameError::PlayerNotFound),
            r is Ok <==> (1 <= target_id as int <= old(self).players@.len() && old(
                self,
            ).players@[target_id as int - 1].is_active),
            r == Ok::<RouletteResult, GameError>(RouletteResult::Safe) ==> same_game(
                *old(self),
                *final(self),
            ),
            (1 <= target_id as int <= old(self).players@.len() && old(self).players@[target_id
                as int - 1].is_active && old(self).roulette_config.loaded_bullets >= old(
                self,
            ).roulette_config.chambers) ==> r == Ok::<RouletteResult, GameError>(
                RouletteResult::Out,
            ),
            r == Ok::<RouletteResult, GameError>(RouletteResult::Out) ==> ({
                let idx = target_id as int - 1;
                let oldp = old(self).players@[idx];
                &&& final(self).players@.len() == old(self).players@.len()
                &&& forall|i: int|
                    0 <= i < old(self).players@.len() && i != idx ==> final(self).players@[i]
                        == old(self).players@[i]
                &&& final(self).players@[idx].id == oldp.id
                &&& final(self).players@[idx].name == oldp.name
                &&& final(self).players@[idx].hand == oldp.hand
                &&& !final(self).players@[idx].is_active
                &&& final(self).deck.cards@ == old(self).deck.cards@
                &&& final(self).last_play == old(self).last_play
                &&& final(self).roulette_config == old(self).roulette_config
                &&& final(self).is_started == old(self).is_started
                &&& (old(self).current_player != target_id ==> final(self).current_player == old(
                    self,
                ).current_player)
                &&& (old(self).current_player == target_id ==> ((active_ids(
                    final(self).players@,
                ).len() == 0 ==> final(self).current_player == old(self).current_player) && (
                active_ids(final(self).players@).len() > 0 ==> final(self).current_player
                    == next_active(final(self).players@, target_id) && is_active_id(
                    final(self).players@,
                    final(self).current_player,
                ))))
            }),
            old(self).turn_ok() ==> final(self).turn_ok(),
    {
        if target_id < 1 || target_id as usize > self.players.len() {
            return Err(GameError::PlayerNotFound);
        }
        let idx: usize = (target_id - 1) as usize;
        proof {
            assert(self.players@[idx as int].id as int == idx + 1);
        }
        if !self.players[idx].is_active {
            return Err(GameError::PlayerNotFound);
        }
        let result = self.roulette_config.spin();
        if result == RouletteResult::Out {
            let p = &mut self.players[idx];
            p.eliminate();
            proof {
                assert(ids_positional(self.players@)) by {
                    assert(forall|i: int|
                        0 <= i < self.players@.len() ==> (#[trigger] self.players@[i]).id == old(
                            self,
                        ).players@[i].id);
                }
            }
            if self.current_player == target_id {
                self.advance_turn();
            } else {
                proof {
                    if old(self).turn_ok() && active_ids(self.players@).len() > 0 {
                        let cur = self.current_player;
                        assert(active_ids(old(self).players@).len() > 0) by {
                            lemma_active_ids_members(old(self).players@);
                            assert(old(self).players@[idx as int].is_active);
                            assert(is_active_id(old(self).players@, target_id));
                            assert(active_ids(old(self).players@).contains(target_id));
                        }
                        let i = choose|i: int|
                            0 <= i < old(self).players@.len() && old(self).players@[i].id == cur
                                && old(self).players@[i].is_active;
                        assert(old(self).players@[idx as int].id == target_id);
                        assert(i != idx);
                        assert(self.players@[i].id == cur && self.players@[i].is_active);
                        assert(is_active_id(self.players@, cur));
                    }
                }
            }
        }
        Ok(result)
    }

    /// The winner, if the game is over: the sole surviving active player
    /// if exactly one remains, or else the first active player whose hand
    /// is empty. The survivor check comes first, deterministically.
    pub fn get_winner(&self) -> (r: Option<u8>)
        requires
            self.wf(),
        ensures
            active_ids(self.players@).len() == 1 ==> r == Some(active_ids(self.players@)[0]),
            active_ids(self.players@).len() != 1 ==> ({
                let w = first_won_index(self.players@);
                &&& (w < self.players@.len() ==> r == Some(self.players@[w].id))
                &&& (w == self.players@.len() ==> r is None)
            }),
    {
        let ids = self.collect_active_ids();
        if ids.len() == 1 {
            return Some(ids[0]);
        }
        proof {
            lemma_first_won_props(self.players@);
        }
        let mut i: usize = 0;
        let n = self.players.len();
        while i < n
            invariant
                self.wf(),
                i <= n,
                n == self.players@.len(),
                active_ids(self.players@).len() != 1,
                forall|j: int|
                    0 <= j < i ==> !((#[trigger] self.players@[j]).is_active
                        && self.players@[j].hand@.len() == 0),
            decreases n - i,
        {
            if self.players[i].is_active && self.players[i].hand.len() == 0 {
                proof {
                    lemma_first_won_props(self.players@);
                    let w = first_won_index(self.players@);
                    if w < i as int {
                        assert(self.players@[w].is_active && self.players@[w].hand@.len() == 0);
                        assert(false);
                    }
                    if w > i as int {
                        assert(!(self.players@[i as int].is_active && self.players@[i
                            as int].hand@.len() == 0));
                        assert(false);
                    }
                }
                return Some(self.players[i].id);
            }
            i = i + 1;
        }
        proof {
            lemma_first_won_props(self.players@);
            let w = first_won_index(self.players@);
            if w < n as int {
                assert(self.players@[w].is_active && self.players@[w].hand@.len() == 0);
                assert(false);
            }
        }
        None
    }

    /// Shuffles the deck and deals five cards to every active player in
    /// ascending id order, then marks the game started. Dealing into a
    /// short deck silently truncates for the last recipients. Once the
    /// game is started this is a no-op, so dealing twice cannot happen.
    pub fn deal_cards(&mut self)
        requires
            old(self).wf(),
        ensures
            final(self).wf(),
            old(self).turn_ok() ==> final(self).turn_ok(),
            old(self).is_started ==> *final(self) == *old(self),
            !old(self).is_started ==> ({
                let l = old(self).deck.cards@.len() as int;
                let k = active_ids(old(self).players@).len() as int;
                &&& final(self).is_started
                &&& final(self).players@.len() == old(self).players@.len()
                &&& forall|i: int|
                    0 <= i < old(self).players@.len() ==> {
                        let oldp = #[trigger] old(self).players@[i];
                        let newp = final(self).players@[i];
                        &&& newp.id == oldp.id
                        &&& newp.name == oldp.name
                        &&& newp.is_active == oldp.is_active
                        &&& (!oldp.is_active ==> newp.hand == oldp.hand)
                        &&& (oldp.is_active ==> newp.hand@.len() == oldp.hand@.len() + deal_take(
                            l,
                            active_ids(old(self).players@.take(i)).len() as int,
                        ) && newp.hand@.take(oldp.hand@.len() as int) == oldp.hand@)
                    }
                &&& final(self).deck.cards@.len() == max(0, l - 5 * k)
                &&& (dealt_cards(old(self).players@, final(self).players@)
                    + final(self).deck.cards@).to_multiset() == old(
                    self,
                ).deck.cards@.to_multiset()
                &&& final(self).current_player == old(self).current_player
                &&& final(self).last_play == old(self).last_play
                &&& final(self).roulette_config == old(self).roulette_config
            }),
    {
        if self.is_started {
            return ;
        }
        self.deck.shuffle();
        let ghost l = old(self).deck.cards@.len() as int;
        let ghost d = self.deck.cards@;
        let n = self.players.len();
        let mut i: usize = 0;
        proof {
            assert(old(self).players@.take(0) =~= Seq::<Player>::empty());
            assert(d.skip(0) =~= d);
            assert(d.take(0) =~= Seq::<Card>::empty());
        }
        while i < n
            invariant
                old(self).wf(),
                i <= n,
                n == self.players@.len(),
                self.players@.len() == old(self).players@.len(),
                l == old(self).deck.cards@.len(),
                d.len() == l,
                d.to_multiset() == old(self).deck.cards@.to_multiset(),
                self.deck.cards@.len() == max(
                    0,
                    l - 5 * active_ids(old(self).players@.take(i as int)).len(),
                ),
                self.deck.cards@ == d.skip(
                    min(5 * active_ids(old(self).players@.take(i as int)).len() as int, l),
                ),
                dealt_to(old(self).players@, self.players@, i as int) == d.take(
                    min(5 * active_ids(old(self).players@.take(i as int)).len() as int, l),
                ),
                forall|ii: int| i <= ii < n ==> self.players@[ii] == old(self).players@[ii],
                forall|ii: int|
                    0 <= ii < i ==> {
                        let oldp = #[trigger] old(self).players@[ii];
                        let newp = self.players@[ii];
                        &&& newp.id == oldp.id
                        &&& newp.name == oldp.name
                        &&& newp.is_active == oldp.is_active
                        &&& (!oldp.is_active ==> newp.hand == oldp.hand)
                        &&& (oldp.is_active ==> newp.hand@.len() == oldp.hand@.len() + deal_take(
                            l,
                            active_ids(old(self).players@.take(ii)).len() as int,
                        ) && newp.hand@.take(oldp.hand@.len() as int) == oldp.hand@)
                    },
                self.current_player == old(self).current_player,
                self.last_play == old(self).last_play,
                self.roulette_config == old(self).roulette_config,
                self.is_started == old(self).is_started,
            decreases n - i,
        {
            let ghost a = active_ids(old(self).players@.take(i as int)).len() as int;
            let ghost tk = min(5 * a, l);
            let ghost ps0 = self.players@;
            if self.players[i].is_active {
                let ghost deckpre = self.deck.cards@;
                let cards = self.deck.deal(5);
                let ghost kk = cards@.len() as int;
                proof {
                    assert(kk == deal_take(l, a));
                    assert(self.deck.cards@ =~= d.skip(tk + kk)) by {
                        assert(self.deck.cards@ == deckpre.skip(kk));
                        assert(deckpre.skip(kk) =~= d.skip(tk).skip(kk));
                        assert(d.skip(tk).skip(kk) =~= d.skip(tk + kk));
                    }
                    assert(cards@ =~= d.subrange(tk, tk + kk)) by {
                        assert(cards@ == deckpre.take(kk));
                        assert(deckpre.take(kk) =~= d.skip(tk).take(kk));
                        assert(d.skip(tk).take(kk) =~= d.subrange(tk, tk + kk));
                    }
                    assert(tk + kk == min(5 * (a + 1), l));
                }
                let p = &mut self.players[i];
                p.add_cards(cards);
                proof {
                    let oldp = old(self).players@[i as int];
                    assert(self.players@[i as int].hand@.take(oldp.hand@.len() as int)
                        =~= oldp.hand@);
                    assert(self.players@[i as int].hand@.skip(oldp.hand@.len() as int)
                        =~= d.subrange(tk, tk + kk));
                    lemma_dealt_to_agrees(old(self).players@, ps0, self.players@, i as int);
                    assert(dealt_to(old(self).players@, self.players@, i + 1) =~= d.take(tk + kk))
                        by {
                        assert(dealt_to(old(self).players@, self.players@, i + 1) == dealt_to(
                            old(self).players@,
                            self.players@,
                            i as int,
                        ) + self.players@[i as int].hand@.skip(oldp.hand@.len() as int));
                        assert(d.take(tk) + d.subrange(tk, tk + kk) =~= d.take(tk + kk));
                    }
                }
            } else {
                proof {
                    assert(dealt_to(old(self).players@, self.players@, i + 1) =~= dealt_to(
                        old(self).players@,
                        self.players@,
                        i as int,
                    ));
                }
            }
            proof {
                lemma_active_ids_take_step(old(self).players@, i as int);
            }
            i = i + 1;
        }
        self.is_started = true;
        proof {
            assert(old(self).players@.take(n as int) =~= old(self).players@);
            let k = active_ids(old(self).players@).len() as int;
            let tt = min(5 * k, l);
            assert(dealt_cards(old(self).players@, self.players@) + self.deck.cards@ =~= d) by {
                assert(dealt_cards(old(self).players@, self.players@) == d.take(tt));
                assert(self.deck.cards@ == d.skip(tt));
                assert(d.take(tt) + d.skip(tt) =~= d);
            }
            assert(ids_positional(self.players@)) by {
                assert(forall|i: int|
                    0 <= i < self.players@.len() ==> (#[trigger] self.players@[i]).id == old(
                        self,
                    ).players@[i].id);
            }
            assert(same_roster(old(self).players@, self.players@)) by {
                assert(forall|i: int|
                    0 <= i < self.players@.len() ==> (#[trigger] self.players@[i]).id == old(
                        self,
                    ).players@[i].id && self.players@[i].is_active == old(
                        self,
                    ).players@[i].is_active);
            }
            lemma_active_ids_same(old(self).players@, self.players@);
            if old(self).turn_ok() && active_ids(self.players@).len() > 0 {
                let cur = old(self).current_player;
                let i = choose|i: int|
                    0 <= i < old(self).players@.len() && old(self).players@[i].id == cur && old(
                        self,
                    ).players@[i].is_active;
                assert(self.players@[i].id == cur && self.players@[i].is_active);
            }
        }
    }
}

/// What `first_won_index` finds: nothing before it is an active player
/// with an empty hand, and the found player (when any) is one.
proof fn lemma_first_won_props(players: Seq<Player>)
    ensures
        0 <= first_won_index(players) <= players.len(),
        forall|l: int|
            0 <= l < first_won_index(players) ==> !((#[trigger] players[l]).is_active
                && players[l].hand@.len() == 0),
        first_won_index(players) < players.len() ==> players[first_won_index(players)].is_active
            && players[first_won_index(players)].hand@.len() == 0,
    decreases players.len(),
{
    if players.len() > 0 && !(players.first().is_active && players.first().hand@.len() == 0) {
        let rest = players.drop_first();
        lemma_first_won_props(rest);
        let w = first_won_index(players);
        assert(w == 1 + first_won_index(rest));
        assert forall|l: int|
            0 <= l < w implies !((#[trigger] players[l]).is_active && players[l].hand@.len()
            == 0) by {
            if l >= 1 {
                assert(rest[l - 1] == players[l]);
            }
        }
        if w < players.len() {
            assert(players[w] == rest[w - 1]);
        }
    }
}

/// Two player lists with the same ids and active flags, position by
/// position.
pub open spec fn same_roster(a: Seq<Player>, b: Seq<Player>) -> bool {
    &&& a.len() == b.len()
    &&& forall|i: int|
        0 <= i < a.len() ==> (#[trigger] b[i]).id == a[i].id && b[i].is_active == a[i].is_active
}

/// Two game states that agree on everything observable.
pub open spec fn same_game(a: Game, b: Game) -> bool {
    &&& b.players@ == a.players@
    &&& b.current_player == a.current_player
    &&& b.roulette_config == a.roulette_config
    &&& b.deck.cards@ == a.deck.cards@
    &&& b.last_play == a.last_play
    &&& b.is_started == a.is_started
}

/// One step of the `active_ids` recursion, phrased over a growing prefix.
proof fn lemma_active_ids_take_step(players: Seq<Player>, i: int)
    requires
        0 <= i < players.len(),
    ensures
        active_ids(players.take(i + 1)) == active_ids(players.take(i)) + (if players[i].is_active {
            seq![players[i].id]
        } else {
            Seq::<u8>::empty()
        }),
{
    let t = players.take(i + 1);
    assert(t.drop_last() =~= players.take(i));
    assert(t.last() == players[i]);
}

/// What `first_greater` finds: everything before it is at most `cur`, and
/// the found element (when any) is above `cur`.
proof fn lemma_first_greater_props(ids: Seq<u8>, cur: u8)
    ensures
        0 <= first_greater(ids, cur) <= ids.len(),
        forall|l: int| 0 <= l < first_greater(ids, cur) ==> ids[l] <= cur,
        first_greater(ids, cur) < ids.len() ==> ids[first_greater(ids, cur)] > cur,
    decreases ids.len(),
{
    if ids.len() > 0 && !(ids.first() > cur) {
        let rest = ids.drop_first();
        lemma_first_greater_props(rest, cur);
        let fg = first_greater(ids, cur);
        assert(fg == 1 + first_greater(rest, cur));
        assert forall|l: int| 0 <= l < fg implies ids[l] <= cur by {
            if l >= 1 {
                assert(rest[l - 1] == ids[l]);
                assert(rest[l - 1] <= cur);
            }
        }
        if fg < ids.len() {
            assert(ids[fg] == rest[fg - 1]);
        }
    }
}

/// Every id listed by `active_ids` belongs to an active player, and every
/// active player's id is listed.
pub proof fn lemma_active_ids_members(players: Seq<Player>)
    ensures
        forall|id: u8| #[trigger]
            active_ids(players).contains(id) <==> is_active_id(players, id),
    decreases players.len(),
{
    if players.len() > 0 {
        let rest = players.drop_last();
        lemma_active_ids_members(rest);
        assert forall|id: u8| #[trigger]
            active_ids(players).contains(id) <==> is_active_id(players, id) by {
            let ids = active_ids(players);
            let rids = active_ids(rest);
            if ids.contains(id) {
                let j = choose|j: int| 0 <= j < ids.len() && ids[j] == id;
                if j < rids.len() {
                    assert(rids[j] == id);
                    assert(rids.contains(id));
                    let i = choose|i: int|
                        0 <= i < rest.len() && rest[i].id == id && rest[i].is_active;
                    assert(players[i].id == id && players[i].is_active);
                } else {
                    assert(players.last().is_active && players.last().id == id);
                    assert(players[players.len() - 1].id == id);
                }
            }
            if is_active_id(players, id) {
                let i = choose|i: int|
                    0 <= i < players.len() && players[i].id == id && players[i].is_active;
                if i < players.len() - 1 {
                    assert(rest[i].id == id && rest[i].is_active);
                    assert(is_active_id(rest, id));
                    assert(rids.contains(id));
                    let j = choose|j: int| 0 <= j < rids.len() && rids[j] == id;
                    assert(ids[j] == id);
                    assert(ids.contains(id));
                } else {
                    assert(players.last().is_active);
                    assert(ids[ids.len() - 1] == id);
                    assert(ids.contains(id));
                }
            }
        }
    }
}

/// With positional ids the active id list is strictly ascending, and its
/// entries lie in `1..=players.len()`.
pub proof fn lemma_active_ids_sorted(players: Seq<Player>)
    requires
        ids_positional(players),
    ensures
        forall|j1: int, j2: int|
            0 <= j1 < j2 < active_ids(players).len() ==> active_ids(players)[j1] < active_ids(
                players,
            )[j2],
        forall|j: int|
            0 <= j < active_ids(players).len() ==> 1 <= #[trigger] active_ids(players)[j]
                && active_ids(players)[j] as int <= players.len(),
    decreases players.len(),
{
    if players.len() > 0 {
        let rest = players.drop_last();
        assert(ids_positional(rest)) by {
            assert(forall|i: int| 0 <= i < rest.len() ==> rest[i] == players[i]);
        }
        lemma_active_ids_sorted(rest);
        let ids = active_ids(players);
        let rids = active_ids(rest);
        assert(players.last().id as int == players.len());
        if players.last().is_active {
            assert(ids =~= rids + seq![players.last().id]);
        } else {
            assert(ids =~= rids);
        }
    }
}

/// Rotation reads only ids and active flags: rosters that agree on those
/// have the same active id sequence.
pub proof fn lemma_active_ids_same(a: Seq<Player>, b: Seq<Player>)
    requires
        same_roster(a, b),
    ensures
        active_ids(b) == active_ids(a),
    decreases a.len(),
{
    if a.len() > 0 {
        assert(same_roster(a.drop_last(), b.drop_last())) by {
            assert(forall|i: int|
                0 <= i < a.len() - 1 ==> a.drop_last()[i] == a[i] && b.drop_last()[i] == b[i]);
            assert(forall|i: int|
                0 <= i < a.len() - 1 ==> (#[trigger] b[i]).id == a[i].id && b[i].is_active
                    == a[i].is_active);
        }
        lemma_active_ids_same(a.drop_last(), b.drop_last());
        assert(b[a.len() - 1].id == a[a.len() - 1].id && b[a.len() - 1].is_active == a[a.len()
            - 1].is_active);
    }
}

/// Copies a card list (cards are plain values).
fn clone_cards(cards: &Vec<Card>) -> (r: Vec<Card>)
    ensures
        r@ == cards@,
{
    let mut out: Vec<Card> = Vec::new();
    let mut i: usize = 0;
    while i < cards.len()
        invariant
            i <= cards@.len(),
            out@ == cards@.take(i as int),
        decreases cards@.len() - i,
    {
        out.push(cards[i]);
        assert(out@ =~= cards@.take(i + 1));
        i = i + 1;
    }
    assert(out@ =~= cards@);
    out
}

/// With positional ids, advancing from the `i`-th active id lands on the
/// `(i + 1)`-th, wrapping from the last back to the first.
pub proof fn lemma_next_active_at_index(players: Seq<Player>, i: int)
    requires
        ids_positional(players),
        0 <= i < active_ids(players).len(),
    ensures
        next_active(players, active_ids(players)[i]) == active_ids(players)[if i + 1 < active_ids(
            players,
        ).len() {
            i + 1
        } else {
            0
        }],
{
    let ids = active_ids(players);
    let cur = ids[i];
    lemma_active_ids_sorted(players);
    lemma_first_greater_props(ids, cur);
    let fg = first_greater(ids, cur);
    if i + 1 < ids.len() {
        if fg <= i {
            assert(ids[fg] > cur);
            if fg < i {
                assert(ids[fg] < ids[i]);
            }
            assert(false);
        }
        if fg > i + 1 {
            assert(ids[i + 1] <= cur);
            assert(ids[i] < ids[i + 1]);
            assert(false);
        }
        assert(fg == i + 1);
    } else {
        if fg < ids.len() {
            assert(ids[fg] > cur);
            if fg < i {
                assert(ids[fg] < ids[i]);
            }
            assert(false);
        }
        assert(fg == ids.len());
    }
}

/// Advancing `m` times from the `i`-th active id lands on the
/// `(i + m) mod count`-th.
proof fn lemma_rotate_n_index(players: Seq<Player>, i: int, m: nat)
    requires
        ids_positional(players),
        0 <= i < active_ids(players).len(),
    ensures
        rotate_n(players, active_ids(players)[i], m) == active_ids(players)[(i + m) % (active_ids(
            players,
        ).len() as int)],
    decreases m,
{
    let ids = active_ids(players);
    let len = ids.len() as int;
    if m == 0 {
        lemma_fundamental_div_mod_converse_mod(i, len, 0, i);
    } else {
        lemma_rotate_n_index(players, i, (m - 1) as nat);
        let a = i + m - 1;
        lemma_mod_division_less_than_divisor(a, len);
        let prev = a % len;
        lemma_next_active_at_index(players, prev);
        lemma_fundamental_div_mod(a, len);
        if prev + 1 < len {
            lemma_fundamental_div_mod_converse_mod(a + 1, len, a / len, prev + 1);
        } else {
            assert(len * (a / len) + len == len * (a / len + 1)) by (nonlinear_arith);
            lemma_fundamental_div_mod_converse_mod(a + 1, len, a / len + 1, 0);
        }
    }
}

/// Turn rotation is circular over exactly the active id set in ascending
/// order: starting from any active player, advancing once per active
/// player returns the turn to where it started.
pub proof fn lemma_rotation_circular(players: Seq<Player>, cur: u8)
    requires
        ids_positional(players),
        is_active_id(players, cur),
    ensures
        rotate_n(players, cur, active_ids(players).len() as nat) == cur,
{
    lemma_active_ids_members(players);
    let ids = active_ids(players);
    assert(ids.contains(cur));
    let i = choose|i: int| 0 <= i < ids.len() && ids[i] == cur;
    lemma_rotate_n_index(players, i, ids.len() as nat);
    assert(i + ids.len() == 1 * (ids.len() as int) + i);
    lemma_fundamental_div_mod_converse_mod(i + ids.len() as int, ids.len() as int, 1, i);
}

} // verus!
