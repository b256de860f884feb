//! The persistent game configuration: language, cylinder size, the
//! player roster, the running turn, and the participant range.
//!
//! Only the rules live here — validation, turn rotation over the
//! participating players, elimination and recovery bookkeeping. Reading
//! and writing the configuration file is the calling layer's job; it
//! validates through [`GameConfig::validate`] before trusting a loaded
//! value.

use vstd::prelude::*;
use crate::text::trim;
use crate::text::trim_spec;

verus! {

/// What makes a configuration value unusable.
#[derive(Debug, Clone, Copy, PartialEq, Eq, Structural)]
pub enum ConfigError {
    /// A cylinder with no chambers cannot be drawn from.
    ZeroBulletCapacity,
    /// More chambers than the supported maximum of twelve.
    BulletCapacityTooLarge,
    /// An empty roster.
    NoPlayers,
    /// More players than the supported maximum of six.
    TooManyPlayers,
    /// Two roster entries share this id.
    DuplicatePlayerId(u8),
    /// This player's name is empty once trimmed.
    BlankPlayerName(u8),
    /// This player's name runs past twenty characters.
    PlayerNameTooLong(u8),
    /// The running turn does not belong to an active player.
    CurrentTurnNotActive,
    /// A participant count outside the supported two to four.
    InvalidParticipantCount(u8),
    /// No roster entry carries this id.
    PlayerNotFound(u8),
}

/// A roster entry: a stable id, a display name, and the active flag.
#[derive(Debug, Clone)]
pub struct Player {
    pub id: u8,
    pub name: String,
    pub is_active: bool,
}

/// The players that take part in the game right now: active, with an id
/// inside the participant range, in roster order.
pub open spec fn participating(players: Seq<Player>, cap: u8) -> Seq<Player>
    decreases players.len(),
{
    if players.len() == 0 {
        Seq::empty()
    } else {
        participating(players.drop_last(), cap) + (if players.last().is_active
            && players.last().id <= cap {
            seq![players.last()]
        } else {
            Seq::<Player>::empty()
        })
    }
}

/// The ids of the participating players, in roster order.
pub open spec fn part_ids(players: Seq<Player>, cap: u8) -> Seq<u8>
    decreases players.len(),
{
    if players.len() == 0 {
        Seq::empty()
    } else {
        part_ids(players.drop_last(), cap) + (if players.last().is_active && players.last().id
            <= cap {
            seq![players.last().id]
        } else {
            Seq::<u8>::empty()
        })
    }
}

/// How many roster entries are active, whatever their id.
pub open spec fn count_active(players: Seq<Player>) -> int
    decreases players.len(),
{
    if players.len() == 0 {
        0
    } else {
        count_active(players.drop_last()) + (if players.last().is_active {
            1int
        } else {
            0int
        })
    }
}

/// The index of the first roster entry with this id, or `players.len()`
/// if there is none.
pub open spec fn index_with_id(players: Seq<Player>, id: u8) -> int
    decreases players.len(),
{
    if players.len() == 0 {
        0
    } else if players.first().id == id {
        0
    } else {
        1 + index_with_id(players.drop_first(), id)
    }
}

/// The index of the first occurrence of `x` in `ids`, or `ids.len()` if
/// there is none.
pub open spec fn index_of_first(ids: Seq<u8>, x: u8) -> int
    decreases ids.len(),
{
    if ids.len() == 0 {
        0
    } else if ids.first() == x {
        0
    } else {
        1 + index_of_first(ids.drop_first(), x)
    }
}

/// Where the turn lands after `cur` among the participating ids: the one
/// after `cur`'s first occurrence in roster order, wrapping around; the
/// first participant when `cur` is not participating; `cur` itself when
/// nobody participates.
pub open spec fn next_turn_spec(players: Seq<Player>, cap: u8, cur: u8) -> u8 {
    let ids = part_ids(players, cap);
    if ids.len() == 0 {
        cur
    } else {
        let j = index_of_first(ids, cur);
        if j < ids.len() {
            ids[(j + 1) % (ids.len() as int)]
        } else {
            ids[0]
        }
    }
}

/// The first problem a roster entry has, in the order the checks run:
/// a duplicated id, then a blank name, then an over-long name.
pub open spec fn player_issue(players: Seq<Player>, i: int) -> Option<ConfigError> {
    if exists|j: int| 0 <= j < i && players[j].id == players[i].id {
        Some(ConfigError::DuplicatePlayerId(players[i].id))
    } else if trim_spec(players[i].name@).len() == 0 {
        Some(ConfigError::BlankPlayerName(players[i].id))
    } else if players[i].name@.len() > 20 {
        Some(ConfigError::PlayerNameTooLong(players[i].id))
    } else {
        None
    }
}

/// The index of the first roster entry with an issue, or `players.len()`
/// if every entry is fine. Scanning from `i` upward.
pub open spec fn first_issue_from(players: Seq<Player>, i: int) -> int
    decreases players.len() - i,
{
    if i < 0 || i >= players.len() {
        players.len() as int
    } else if player_issue(players, i) is Some {
        i
    } else {
        first_issue_from(players, i + 1)
    }
}

/// The game configuration, as the calling layer stores it between runs.
#[derive(Debug, Clone)]
pub struct GameConfig {
    pub language: String,
    pub bullet_capacity: u8,
    pub players: Vec<Player>,
    pub current_turn: u8,
    pub participant_count: u8,
    pub game_completed: bool,
}

impl GameConfig {
    /// The first rule a configuration breaks, or `None` when it is valid:
    /// cylinder size within one to twelve, one to six players, no
    /// duplicate ids, no blank or over-long names, and the running turn
    /// on an active player.
    pub open spec fn validate_spec(self) -> Option<ConfigError> {
        if self.bullet_capacity == 0 {
            Some(ConfigError::ZeroBulletCapacity)
        } else if self.bullet_capacity > 12 {
            Some(ConfigError::BulletCapacityTooLarge)
        } else if self.players@.len() == 0 {
            Some(ConfigError::NoPlayers)
        } else if self.players@.len() > 6 {
            Some(ConfigError::TooManyPlayers)
        } else if first_issue_from(self.players@, 0) < self.players@.len() {
            player_issue(self.players@, first_issue_from(self.players@, 0))
        } else if !(exists|i: int|
            0 <= i < self.players@.len() && (#[trigger] self.players@[i]).id == self.current_turn
                && self.players@[i].is_active) {
            Some(ConfigError::CurrentTurnNotActive)
        } else {
            None
        }
    }

    /// Checks the configuration against every rule, reporting the first
    /// one broken.
    pub fn validate(&self) -> (r: Result<(), ConfigError>)
        ensures
            r matches Ok(u) ==> self.validate_spec() is None,
            r matches Err(e) ==> self.validate_spec() == Some(e),
    {
        if self.bullet_capacity == 0 {
            return Err(ConfigError::ZeroBulletCapacity);
        }
        if self.bullet_capacity > 12 {
            return Err(ConfigError::BulletCapacityTooLarge);
        }
        if self.players.len() == 0 {
            return Err(ConfigError::NoPlayers);
        }
        if self.players.len() > 6 {
            return Err(ConfigError::TooManyPlayers);
        }
        let n = self.players.len();
        let mut i: usize = 0;
        proof {
            lemma_first_issue_bounds(self.players@, 0);
        }
        while i < n
            invariant
                i <= n,
                n == self.players@.len(),
                self.bullet_capacity != 0,
                self.bullet_capacity <= 12,
                1 <= n <= 6,
                first_issue_from(self.players@, 0) >= i,
            decreases n - i,
        {
            let mut j: usize = 0;
            while j < i
                invariant
                    j <= i < n,
                    n == self.players@.len(),
                    self.bullet_capacity != 0,
                    self.bullet_capacity <= 12,
                    1 <= n <= 6,
                    first_issue_from(self.players@, 0) >= i,
                    forall|l: int|
                        0 <= l < j ==> (#[trigger] self.players@[l]).id != self.players@[i as int].id,
                decreases i - j,
            {
                if self.players[j].id == self.players[i].id {
                    proof {
                        assert(player_issue(self.players@, i as int) == Some(
                            ConfigError::DuplicatePlayerId(self.players@[i as int].id),
                        ));
                        lemma_first_issue_stops(self.players@, 0, i as int);
                    }
                    return Err(ConfigError::DuplicatePlayerId(self.players[i].id));
                }
                j = j + 1;
            }
            let t = trim(self.players[i].name.as_str());
            if t.unicode_len() == 0 {
                proof {
                    assert(player_issue(self.players@, i as int) == Some(
                        ConfigError::BlankPlayerName(self.players@[i as int].id),
                    ));
                    lemma_first_issue_stops(self.players@, 0, i as int);
                }
                return Err(ConfigError::BlankPlayerName(self.players[i].id));
            }
            if self.players[i].name.as_str().unicode_len() > 20 {
                proof {
                    assert(player_issue(self.players@, i as int) == Some(
                        ConfigError::PlayerNameTooLong(self.players@[i as int].id),
                    ));
                    lemma_first_issue_stops(self.players@, 0, i as int);
                }
                return Err(ConfigError::PlayerNameTooLong(self.players[i].id));
            }
            proof {
                assert(player_issue(self.players@, i as int) is None);
                lemma_first_issue_skips(self.players@, i as int);
            }
            i = i + 1;
        }
        proof {
            lemma_first_issue_bounds(self.players@, 0);
            assert(first_issue_from(self.players@, 0) == n as int);
        }
        let mut k: usize = 0;
        while k < n
            invariant
                k <= n,
                n == self.players@.len(),
                self.bullet_capacity != 0,
                self.bullet_capacity <= 12,
                1 <= n <= 6,
                first_issue_from(self.players@, 0) == n as int,
                forall|l: int|
                    0 <= l < k ==> !((#[trigger] self.players@[l]).id == self.current_turn
                        && self.players@[l].is_active),
            decreases n - k,
        {
            if self.players[k].id == self.current_turn && self.players[k].is_active {
                return Ok(());
            }
            k = k + 1;
        }
        Err(ConfigError::CurrentTurnNotActive)
    }

    /// How many roster entries are active, whatever their id.
    pub fn active_player_count(&self) -> (r: usize)
        ensures
            r == count_active(self.players@),
    {
        let mut count: usize = 0;
        let mut i: usize = 0;
        proof {
            assert(self.players@.take(0) =~= Seq::<Player>::empty());
        }
        while i < self.players.len()
            invariant
                i <= self.players@.len(),
                count == count_active(self.players@.take(i as int)),
                count <= i,
            decreases self.players@.len() - i,
        {
            proof {
                assert(self.players@.take(i + 1).drop_last() =~= self.players@.take(i as int));
                assert(self.players@.take(i + 1).last() == self.players@[i as int]);
            }
            if self.players[i].is_active {
                count = count + 1;
            }
            i = i + 1;
        }
        proof {
            assert(self.players@.take(self.players@.len() as int) =~= self.players@);
        }
        count
    }

    /// The participating players — active and within the participant
    /// range — in roster order.
    pub fn active_players(&self) -> (r: Vec<&Player>)
        ensures
            r@.len() == participating(self.players@, self.participant_count).len(),
            forall|k: int|
                0 <= k < r@.len() ==> *r@[k] == participating(
                    self.players@,
                    self.participant_count,
                )[k],
    {
        let mut out: Vec<&Player> = Vec::new();
        let mut i: usize = 0;
        proof {
            assert(self.players@.take(0) =~= Seq::<Player>::empty());
        }
        while i < self.players.len()
            invariant
                i <= self.players@.len(),
                out@.len() == participating(self.players@.take(i as int), self.participant_count).len(),
                forall|k: int|
                    0 <= k < out@.len() ==> *out@[k] == participating(
                        self.players@.take(i as int),
                        self.participant_count,
                    )[k],
            decreases self.players@.len() - i,
        {
            proof {
                assert(self.players@.take(i + 1).drop_last() =~= self.players@.take(i as int));
                assert(self.players@.take(i + 1).last() == self.players@[i as int]);
            }
            if self.players[i].is_active && self.players[i].id <= self.participant_count {
                out.push(&self.players[i]);
            }
            i = i + 1;
        }
        proof {
            assert(self.players@.take(self.players@.len() as int) =~= self.players@);
        }
        out
    }

    /// Sets how many players take part (two to four). Players outside the
    /// range are deactivated, players inside it reactivated, and a turn
    /// left outside the range returns to player 1.
    pub fn set_participant_count(&mut self, count: u8) -> (r: Result<(), ConfigError>)
        ensures
            (count < 2 || count > 4) ==> (r matches Err(e) && e
                == ConfigError::InvalidParticipantCount(count) && *final(self) == *old(self)),
            2 <= count <= 4 ==> (r matches Ok(u) && {
                &&& final(self).participant_count == count
                &&& final(self).players@.len() == old(self).players@.len()
                &&& forall|i: int|
                    0 <= i < old(self).players@.len() ==> {
                        let oldp = #[trigger] old(self).players@[i];
                        let newp = final(self).players@[i];
                        &&& newp.id == oldp.id
                        &&& newp.name == oldp.name
                        &&& newp.is_active == (oldp.id <= count)
                    }
                &&& final(self).current_turn == (if old(self).current_turn > count {
                    1u8
                } else {
                    old(self).current_turn
                })
                &&& final(self).language == old(self).language
                &&& final(self).bullet_capacity == old(self).bullet_capacity
                &&& final(self).game_completed == old(self).game_completed
            }),
    {
        if count < 2 || count > 4 {
            return Err(ConfigError::InvalidParticipantCount(count));
        }
        self.participant_count = count;
        let n = self.players.len();
        let mut i: usize = 0;
        while i < n
            invariant
                i <= n,
                n == self.players@.len(),
                self.players@.len() == old(self).players@.len(),
                self.participant_count == count,
                self.language == old(self).language,
                self.bullet_capacity == old(self).bullet_capacity,
                self.game_completed == old(self).game_completed,
                self.current_turn == old(self).current_turn,
                forall|ii: int| i <= ii < n ==> self.players@[ii] == old(self).players@[ii],
                forall|ii: int|
                    0 <= ii < i ==> {
                        let oldp = #[trigger] old(self).players@[ii];
                        let newp = self.players@[ii];
                        &&& newp.id == oldp.id
                        &&& newp.name == oldp.name
                        &&& newp.is_active == (oldp.id <= count)
                    },
            decreases n - i,
        {
            let active = self.players[i].id <= count;
            let p = &mut self.players[i];
            p.set_active(active);
            i = i + 1;
        }
        if self.current_turn > count {
            self.current_turn = 1;
        }
        Ok(())
    }

    /// Looks up the first roster entry with this id.
    pub fn get_player(&self, id: u8) -> (r: Option<&Player>)
        ensures
            index_with_id(self.players@, id) < self.players@.len() ==> (r matches Some(p) && *p
                == self.players@[index_with_id(self.players@, id)]),
            index_with_id(self.players@, id) == self.players@.len() ==> r is None,
    {
        let n = self.players.len();
        let mut i: usize = 0;
        while i < n
            invariant
                i <= n,
                n == self.players@.len(),
                forall|l: int| 0 <= l < i ==> (#[trigger] self.players@[l]).id != id,
            decreases n - i,
        {
            if self.players[i].id == id {
                proof {
                    lemma_index_with_id_pins(self.players@, id, i as int);
                }
                return Some(&self.players[i]);
            }
            i = i + 1;
        }
        proof {
            lemma_index_with_id_props(self.players@, id);
            if index_with_id(self.players@, id) < n as int {
                assert(self.players@[index_with_id(self.players@, id)].id == id);
                assert(false);
            }
        }
        None
    }

    /// Looks up the first roster entry with this id for mutation; the
    /// rest of the configuration is untouched.
    pub fn get_player_mut(&mut self, id: u8) -> (r: Option<&mut Player>)
        ensures
            index_with_id(old(self).players@, id) < old(self).players@.len() ==> (r matches Some(p)
                && *p == old(self).players@[index_with_id(old(self).players@, id)]
                && final(self).players@ == old(self).players@.update(
                index_with_id(old(self).players@, id),
                *final(p),
            )),
            index_with_id(old(self).players@, id) == old(self).players@.len() ==> (r is None
                && *final(self) == *old(self)),
            final(self).language == old(self).language,
            final(self).bullet_capacity == old(self).bullet_capacity,
            final(self).current_turn == old(self).current_turn,
            final(self).participant_count == old(self).participant_count,
            final(self).game_completed == old(self).game_completed,
    {
        let n = self.players.len();
        let mut i: usize = 0;
        while i < n
            invariant
                *self == *old(self),
                i <= n,
                n == self.players@.len(),
                forall|l: int| 0 <= l < i ==> (#[trigger] self.players@[l]).id != id,
            decreases n - i,
        {
            if self.players[i].id == id {
                proof {
                    lemma_index_with_id_pins(self.players@, id, i as int);
                }
                return Some(&mut self.players[i]);
            }
            i = i + 1;
        }
        proof {
            lemma_index_with_id_props(self.players@, id);
            if index_with_id(self.players@, id) < n as int {
                assert(self.players@[index_with_id(self.players@, id)].id == id);
                assert(false);
            }
        }
        None
    }
}

/// `index_with_id` finds no earlier occurrence, and an occurrence when it
/// lands inside the roster.
proof fn lemma_index_with_id_props(players: Seq<Player>, id: u8)
    ensures
        0 <= index_with_id(players, id) <= players.len(),
        forall|l: int| 0 <= l < index_with_id(players, id) ==> (#[trigger] players[l]).id != id,
        index_with_id(players, id) < players.len() ==> players[index_with_id(players, id)].id
            == id,
    decreases players.len(),
{
    if players.len() > 0 && players.first().id != id {
        let rest = players.drop_first();
        lemma_index_with_id_props(rest, id);
        let w = index_with_id(players, id);
        assert(w == 1 + index_with_id(rest, id));
        assert forall|l: int| 0 <= l < w implies (#[trigger] players[l]).id != id by {
            if l >= 1 {
                assert(rest[l - 1] == players[l]);
            }
        }
        if w < players.len() {
            assert(players[w] == rest[w - 1]);
        }
    }
}

/// A scan that found `id` first at position `i` pins `index_with_id`.
proof fn lemma_index_with_id_pins(players: Seq<Player>, id: u8, i: int)
    requires
        0 <= i < players.len(),
        players[i].id == id,
        forall|l: int| 0 <= l < i ==> (#[trigger] players[l]).id != id,
    ensures
        index_with_id(players, id) == i,
{
    lemma_index_with_id_props(players, id);
    let w = index_with_id(players, id);
    if w < i {
        assert(players[w].id != id);
        assert(false);
    }
    if w > i {
        assert(players[i].id != id);
        assert(false);
    }
}

/// The first-issue scan never stops before `from`.
proof fn lemma_first_issue_bounds(players: Seq<Player>, from: int)
    requires
        from <= players.len(),
    ensures
        first_issue_from(players, from) >= from,
        first_issue_from(players, from) >= 0,
        first_issue_from(players, from) <= players.len(),
    decreases players.len() - from,
{
    if 0 <= from < players.len() && !(player_issue(players, from) is Some) {
        lemma_first_issue_bounds(players, from + 1);
    }
}

/// A clean entry moves the first-issue scan past itself.
proof fn lemma_first_issue_skips(players: Seq<Player>, i: int)
    requires
        0 <= i < players.len(),
        player_issue(players, i) is None,
        first_issue_from(players, 0) >= i,
    ensures
        first_issue_from(players, 0) >= i + 1,
{
    lemma_first_issue_step(players, 0, i);
}

/// An entry with an issue stops the scan exactly there.
proof fn lemma_first_issue_stops(players: Seq<Player>, from: int, i: int)
    requires
        0 <= from <= i < players.len(),
        player_issue(players, i) is Some,
        first_issue_from(players, from) >= i,
    ensures
        first_issue_from(players, from) == i,
    decreases i - from,
{
    if from < i {
        if player_issue(players, from) is Some {
            assert(first_issue_from(players, from) == from);
            assert(false);
        }
        lemma_first_issue_stops(players, from + 1, i);
    }
}

/// Helper: the scan from `from` reaching past a clean entry `i` moves on.
proof fn lemma_first_issue_step(players: Seq<Player>, from: int, i: int)
    requires
        0 <= from <= i < players.len(),
        player_issue(players, i) is None,
        first_issue_from(players, from) >= i,
    ensures
        first_issue_from(players, from) >= i + 1,
    decreases i - from,
{
    if from == i {
        assert(first_issue_from(players, from) == first_issue_from(players, from + 1));
        lemma_first_issue_bounds(players, from + 1);
    } else {
        if player_issue(players, from) is Some {
            assert(first_issue_from(players, from) == from);
            assert(false);
        }
        lemma_first_issue_step(players, from + 1, i);
    }
}

impl Player {
    /// Sets the active flag, leaving identity and name alone.
    pub fn set_active(&mut self, active: bool)
        ensures
            final(self).id == old(self).id,
            final(self).name == old(self).name,
            final(self).is_active == active,
    {
        self.is_active = active;
    }
}

/// `index_of_first` finds no earlier occurrence, and an occurrence when
/// it lands inside the list.
proof fn lemma_index_of_first_props(ids: Seq<u8>, x: u8)
    ensures
        0 <= index_of_first(ids, x) <= ids.len(),
        forall|l: int| 0 <= l < index_of_first(ids, x) ==> ids[l] != x,
        index_of_first(ids, x) < ids.len() ==> ids[index_of_first(ids, x)] == x,
    decreases ids.len(),
{
    if ids.len() > 0 && ids.first() != x {
        let rest = ids.drop_first();
        lemma_index_of_first_props(rest, x);
        let w = index_of_first(ids, x);
        assert(w == 1 + index_of_first(rest, x));
        assert forall|l: int| 0 <= l < w implies ids[l] != x by {
            if l >= 1 {
                assert(rest[l - 1] == ids[l]);
            }
        }
        if w < ids.len() {
            assert(ids[w] == rest[w - 1]);
        }
    }
}

impl GameConfig {
    /// Collects the participating ids in roster order.
    fn collect_part_ids(&self) -> (r: Vec<u8>)
        ensures
            r@ == part_ids(self.players@, self.participant_count),
    {
        let mut ids: Vec<u8> = Vec::new();
        let mut i: usize = 0;
        proof {
            assert(self.players@.take(0) =~= Seq::<Player>::empty());
        }
        while i < self.players.len()
            invariant
                i <= self.players@.len(),
                ids@ == part_ids(self.players@.take(i as int), self.participant_count),
            decreases self.players@.len() - i,
        {
            proof {
                assert(self.players@.take(i + 1).drop_last() =~= self.players@.take(i as int));
                assert(self.players@.take(i + 1).last() == self.players@[i as int]);
            }
            if self.players[i].is_active && self.players[i].id <= self.participant_count {
                ids.push(self.players[i].id);
            }
            i = i + 1;
        }
        proof {
            assert(self.players@.take(self.players@.len() as int) =~= self.players@);
        }
        ids
    }

    /// The position of the first roster entry with this id.
    fn position_of(&self, id: u8) -> (r: Option<usize>)
        ensures
            r matches Some(i) ==> i < self.players@.len() && i as int == index_with_id(
                self.players@,
                id,
            ),
            r is None ==> index_with_id(self.players@, id) == self.players@.len(),
    {
        let n = self.players.len();
        let mut i: usize = 0;
        while i < n
            invariant
                i <= n,
                n == self.players@.len(),
                forall|l: int| 0 <= l < i ==> (#[trigger] self.players@[l]).id != id,
            decreases n - i,
        {
            if self.players[i].id == id {
                proof {
                    lemma_index_with_id_pins(self.players@, id, i as int);
                }
                return Some(i);
            }
            i = i + 1;
        }
        proof {
            lemma_index_with_id_props(self.players@, id);
            if index_with_id(self.players@, id) < n as int {
                assert(self.players@[index_with_id(self.players@, id)].id == id);
                assert(false);
            }
        }
        None
    }

    /// Moves the turn to the participant after the current one in roster
    /// order, wrapping around; a turn that is not participating falls to
    /// the first participant; with nobody participating nothing changes.
    pub fn next_turn(&mut self)
        ensures
            final(self).players == old(self).players,
            final(self).language == old(self).language,
            final(self).bullet_capacity == old(self).bullet_capacity,
            final(self).participant_count == old(self).participant_count,
            final(self).game_completed == old(self).game_completed,
            final(self).current_turn == next_turn_spec(
                old(self).players@,
                old(self).participant_count,
                old(self).current_turn,
            ),
    {
        let ids = self.collect_part_ids();
        let n = ids.len();
        if n == 0 {
            return ;
        }
        let cur = self.current_turn;
        let ghost gids = part_ids(self.players@, self.participant_count);
        let mut j: usize = 0;
        let mut found: usize = n;
        while j < n
            invariant
                *self == *old(self),
                j <= n,
                found <= n,
                n == ids@.len(),
                ids@ == gids,
                found < n ==> found < j && ids@[found as int] == cur && (forall|l: int|
                    0 <= l < found ==> ids@[l] != cur),
                found == n ==> forall|l: int| 0 <= l < j ==> ids@[l] != cur,
            decreases n - j,
        {
            if found == n && ids[j] == cur {
                found = j;
            }
            j = j + 1;
        }
        proof {
            lemma_index_of_first_props(gids, cur);
            let w = index_of_first(gids, cur);
            if found < n {
                if w < found {
                    assert(gids[w] == cur);
                    assert(false);
                }
                if w > found {
                    assert(gids[found as int] != cur);
                    assert(false);
                }
            } else {
                if w < gids.len() {
                    assert(gids[w] == cur);
                    assert(false);
                }
            }
        }
        if found < n {
            let next = (found + 1) % n;
            self.current_turn = ids[next];
        } else {
            self.current_turn = ids[0];
        }
    }

    /// Looks up the roster entry holding the turn.
    pub fn current_player(&self) -> (r: Option<&Player>)
        ensures
            index_with_id(self.players@, self.current_turn) < self.players@.len() ==> (
            r matches Some(p) && *p == self.players@[index_with_id(
                self.players@,
                self.current_turn,
            )]),
            index_with_id(self.players@, self.current_turn) == self.players@.len() ==> r is None,
    {
        self.get_player(self.current_turn)
    }

    /// Renames a player: the stored name is the given one trimmed, which
    /// must be non-blank and at most twenty characters.
    pub fn change_player_name(&mut self, id: u8, new_name: String) -> (r: Result<
        (),
        ConfigError,
    >)
        ensures
            trim_spec(new_name@).len() == 0 ==> (r matches Err(e) && e
                == ConfigError::BlankPlayerName(id) && *final(self) == *old(self)),
            trim_spec(new_name@).len() > 20 ==> (r matches Err(e) && e
                == ConfigError::PlayerNameTooLong(id) && *final(self) == *old(self)),
            1 <= trim_spec(new_name@).len() <= 20 && index_with_id(old(self).players@, id) == old(
                self,
            ).players@.len() ==> (r matches Err(e) && e == ConfigError::PlayerNotFound(id)
                && *final(self) == *old(self)),
            1 <= trim_spec(new_name@).len() <= 20 && index_with_id(old(self).players@, id) < old(
                self,
            ).players@.len() ==> (r matches Ok(u) && ({
                let idx = index_with_id(old(self).players@, id);
                &&& final(self).players@.len() == old(self).players@.len()
                &&& forall|i: int|
                    0 <= i < old(self).players@.len() && i != idx ==> final(self).players@[i]
                        == old(self).players@[i]
                &&& final(self).players@[idx].id == old(self).players@[idx].id
                &&& final(self).players@[idx].is_active == old(self).players@[idx].is_active
                &&& final(self).players@[idx].name@ == trim_spec(new_name@)
                &&& final(self).language == old(self).language
                &&& final(self).bullet_capacity == old(self).bullet_capacity
                &&& final(self).current_turn == old(self).current_turn
                &&& final(self).participant_count == old(self).participant_count
                &&& final(self).game_completed == old(self).game_completed
            })),
    {
        let trimmed = trim(new_name.as_str());
        let tl = trimmed.unicode_len();
        if tl == 0 {
            return Err(ConfigError::BlankPlayerName(id));
        }
        if tl > 20 {
            return Err(ConfigError::PlayerNameTooLong(id));
        }
        let owned = trimmed.to_owned();
        match self.position_of(id) {
            Some(i) => {
                let p = &mut self.players[i];
                p.name = owned;
                Ok(())
            },
            None => Err(ConfigError::PlayerNotFound(id)),
        }
    }

    /// Deactivates a player. When that player held the turn, the turn
    /// moves on at once, so it never rests on an eliminated player while
    /// participants remain.
    pub fn eliminate_player(&mut self, id: u8) -> (r: Result<(), ConfigError>)
        ensures
            index_with_id(old(self).players@, id) == old(self).players@.len() ==> (
            r matches Err(e) && e == ConfigError::PlayerNotFound(id) && *final(self) == *old(
                self,
            )),
            index_with_id(old(self).players@, id) < old(self).players@.len() ==> (r matches Ok(u)
                && ({
                let idx = index_with_id(old(self).players@, id);
                &&& final(self).players@.len() == old(self).players@.len()
                &&& forall|i: int|
                    0 <= i < old(self).players@.len() && i != idx ==> final(self).players@[i]
                        == old(self).players@[i]
                &&& final(self).players@[idx].id == old(self).players@[idx].id
                &&& final(self).players@[idx].name == old(self).players@[idx].name
                &&& !final(self).players@[idx].is_active
                &&& final(self).current_turn == (if old(self).current_turn == id {
                    next_turn_spec(
                        final(self).players@,
                        old(self).participant_count,
                        old(self).current_turn,
                    )
                } else {
                    old(self).current_turn
                })
                &&& final(self).language == old(self).language
                &&& final(self).bullet_capacity == old(self).bullet_capacity
                &&& final(self).participant_count == old(self).participant_count
                &&& final(self).game_completed == old(self).game_completed
            })),
    {
        match self.position_of(id) {
            Some(i) => {
                let p = &mut self.players[i];
                p.is_active = false;
            },
            None => {
                return Err(ConfigError::PlayerNotFound(id));
            },
        }
        if self.current_turn == id {
            self.next_turn();
        }
        Ok(())
    }

    /// Starts a fresh game: every player inside the participant range is
    /// reactivated, the turn returns to player 1, and the completion flag
    /// clears.
    pub fn reset_game(&mut self)
        ensures
            final(self).players@.len() == old(self).players@.len(),
            forall|i: int|
                0 <= i < old(self).players@.len() ==> {
                    let oldp = #[trigger] old(self).players@[i];
                    let newp = final(self).players@[i];
                    &&& newp.id == oldp.id
                    &&& newp.name == oldp.name
                    &&& newp.is_active == (oldp.id <= old(self).participant_count
                        || oldp.is_active)
                },
            final(self).current_turn == 1,
            !final(self).game_completed,
            final(self).language == old(self).language,
            final(self).bullet_capacity == old(self).bullet_capacity,
            final(self).participant_count == old(self).participant_count,
    {
        let n = self.players.len();
        let mut i: usize = 0;
        while i < n
            invariant
                i <= n,
                n == self.players@.len(),
                self.players@.len() == old(self).players@.len(),
                self.language == old(self).language,
                self.bullet_capacity == old(self).bullet_capacity,
                self.participant_count == old(self).participant_count,
                self.game_completed == old(self).game_completed,
                self.current_turn == old(self).current_turn,
                forall|ii: int| i <= ii < n ==> self.players@[ii] == old(self).players@[ii],
                forall|ii: int|
                    0 <= ii < i ==> {
                        let oldp = #[trigger] old(self).players@[ii];
                        let newp = self.players@[ii];
                        &&& newp.id == oldp.id
                        &&& newp.name == oldp.name
                        &&& newp.is_active == (oldp.id <= old(self).participant_count
                            || oldp.is_active)
                    },
            decreases n - i,
        {
            if self.players[i].id <= self.participant_count {
                let p = &mut self.players[i];
                p.set_active(true);
            }
            i = i + 1;
        }
        self.current_turn = 1;
        self.game_completed = false;
    }

    /// Marks the running game finished; the calling layer offers a reset
    /// on the next start.
    pub fn mark_game_completed(&mut self)
        ensures
            final(self).game_completed,
            final(self).players == old(self).players,
            final(self).language == old(self).language,
            final(self).bullet_capacity == old(self).bullet_capacity,
            final(self).current_turn == old(self).current_turn,
            final(self).participant_count == old(self).participant_count,
    {
        self.game_completed = true;
    }

    /// The winner, if the game is decided: the sole remaining
    /// participating player.
    pub fn check_winner(&self) -> (r: Option<&Player>)
        ensures
            participating(self.players@, self.participant_count).len() == 1 ==> (r matches Some(p)
                && *p == participating(self.players@, self.participant_count)[0]),
            participating(self.players@, self.participant_count).len() != 1 ==> r is None,
    {
        let winners = self.active_players();
        if winners.len() == 1 {
            Some(winners[0])
        } else {
            None
        }
    }
}

impl Default for GameConfig {
    /// The starting configuration: Japanese messages, six chambers, three
    /// participating players, the turn on player 1.
    fn default() -> (r: GameConfig)
        ensures
            r.language@ == "ja"@,
            r.bullet_capacity == 6,
            r.participant_count == 3,
            !r.game_completed,
            r.current_turn == 1,
            r.players@.len() == 3,
            forall|i: int|
                0 <= i < 3 ==> (#[trigger] r.players@[i]).id as int == i + 1
                    && r.players@[i].is_active,
            r.players@[0].name@ == "\u{30d7}\u{30ec}\u{30a4}\u{30e4}\u{30fc}1"@,
            r.players@[1].name@ == "\u{30d7}\u{30ec}\u{30a4}\u{30e4}\u{30fc}2"@,
            r.players@[2].name@ == "\u{30d7}\u{30ec}\u{30a4}\u{30e4}\u{30fc}3"@,
    {
        let mut players: Vec<Player> = Vec::new();
        players.push(
            Player {
                id: 1,
                name: String::from_str("\u{30d7}\u{30ec}\u{30a4}\u{30e4}\u{30fc}1"),
                is_active: true,
            },
        );
        players.push(
            Player {
                id: 2,
                name: String::from_str("\u{30d7}\u{30ec}\u{30a4}\u{30e4}\u{30fc}2"),
                is_active: true,
            },
        );
        players.push(
            Player {
                id: 3,
                name: String::from_str("\u{30d7}\u{30ec}\u{30a4}\u{30e4}\u{30fc}3"),
                is_active: true,
            },
        );
        GameConfig {
            language: String::from_str("ja"),
            bullet_capacity: 6,
            players,
            current_turn: 1,
            participant_count: 3,
            game_completed: false,
        }
    }
}

} // verus!
