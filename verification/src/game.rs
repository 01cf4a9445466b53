//! The central game manager: the player registry, the Tokyo occupancy
//! value, and the turn-resolution state machine.
//!
//! Every mutating operation is specified against a functional model over
//! [`GameView`]: the exec code is proved equal to the model, and the model
//! is proved to keep every resource value inside its bounds.

use vstd::prelude::*;
use crate::dice::DieResult;
use crate::player::{Player, PlayerView};
use crate::tally::{count_face, lemma_count_face_bounds, tally};

verus! {

// ---------------------------------------------------------------------------
// Saturating arithmetic model
// ---------------------------------------------------------------------------
/// Addition that never exceeds `cap`.
pub open spec fn cap_add(v: int, d: int, cap: int) -> int {
    if v + d > cap {
        cap
    } else {
        v + d
    }
}

/// Subtraction that never goes below zero.
pub open spec fn sat_sub(v: int, d: int) -> int {
    if v - d < 0 {
        0
    } else {
        v - d
    }
}

/// The saturating operations keep a value inside `[0, cap]` however large
/// the increment or decrement is.
pub proof fn lemma_saturating_bounds(v: int, d: int, cap: int)
    requires
        0 <= v <= cap,
        0 <= d,
    ensures
        0 <= cap_add(v, d, cap) <= cap,
        0 <= sat_sub(v, d) <= cap,
{
}

// ---------------------------------------------------------------------------
// Per-player effects
// ---------------------------------------------------------------------------
/// Victory points go up by `d`, capped at `max_vp`.
pub open spec fn vp_awarded(q: PlayerView, d: int, max_vp: int) -> PlayerView {
    PlayerView { victory_points: cap_add(q.victory_points, d, max_vp), ..q }
}

/// Energy goes up by `d`, unbounded by any game rule; the only cap is the
/// width of the stored 32-bit word, a machine limit.
pub open spec fn energy_gained(q: PlayerView, d: int) -> PlayerView {
    PlayerView { energy: cap_add(q.energy, d, 0xFFFF_FFFF), ..q }
}

/// Hit points go up by `d`, capped at `max_hp`.
pub open spec fn healed(q: PlayerView, d: int, max_hp: int) -> PlayerView {
    PlayerView { hp: cap_add(q.hp, d, max_hp), ..q }
}

/// Hit points go down by `d`, stopping at zero.
pub open spec fn damaged(q: PlayerView, d: int) -> PlayerView {
    PlayerView { hp: sat_sub(q.hp, d), ..q }
}

// ---------------------------------------------------------------------------
// Registry-wide effects
// ---------------------------------------------------------------------------
/// The player with identity `pid` gains `d` victory points; everyone else
/// is untouched.
pub open spec fn award_points_all(
    players: Seq<PlayerView>,
    pid: u32,
    d: int,
    max_vp: int,
) -> Seq<PlayerView> {
    players.map_values(
        |q: PlayerView|
            if q.id == pid {
                vp_awarded(q, d, max_vp)
            } else {
                q
            },
    )
}

/// The player with identity `pid` gains `d` energy.
pub open spec fn gain_energy_all(players: Seq<PlayerView>, pid: u32, d: int) -> Seq<PlayerView> {
    players.map_values(
        |q: PlayerView|
            if q.id == pid {
                energy_gained(q, d)
            } else {
                q
            },
    )
}

/// The player with identity `pid` heals `d` hit points.
pub open spec fn heal_all(
    players: Seq<PlayerView>,
    pid: u32,
    d: int,
    max_hp: int,
) -> Seq<PlayerView> {
    players.map_values(
        |q: PlayerView|
            if q.id == pid {
                healed(q, d, max_hp)
            } else {
                q
            },
    )
}

/// The player with identity `pid` takes `d` damage.
pub open spec fn damage_one_all(players: Seq<PlayerView>, pid: u32, d: int) -> Seq<PlayerView> {
    players.map_values(
        |q: PlayerView|
            if q.id == pid {
                damaged(q, d)
            } else {
                q
            },
    )
}

/// Every player except the one with identity `pid` takes `d` damage.
pub open spec fn damage_others_all(players: Seq<PlayerView>, pid: u32, d: int) -> Seq<PlayerView> {
    players.map_values(
        |q: PlayerView|
            if q.id == pid {
                q
            } else {
                damaged(q, d)
            },
    )
}

// ---------------------------------------------------------------------------
// The registry view and its invariant
// ---------------------------------------------------------------------------
/// The mathematical view of a whole game: the ordered player registry, the
/// Tokyo occupancy, and the two session limits.
#[verifier::ext_equal]
pub struct GameView {
    pub players: Seq<PlayerView>,
    pub tokyo_controller_id: Option<u32>,
    pub max_hp: int,
    pub max_vp: int,
}

/// `g` with its registry replaced.
pub open spec fn with_players(g: GameView, ps: Seq<PlayerView>) -> GameView {
    GameView { players: ps, ..g }
}

/// `g` with its occupancy replaced.
pub open spec fn with_tokyo(g: GameView, t: Option<u32>) -> GameView {
    GameView { tokyo_controller_id: t, ..g }
}

/// Some player in the registry carries identity `pid`.
pub open spec fn has_player(players: Seq<PlayerView>, pid: u32) -> bool {
    exists|i: int| 0 <= i < players.len() && players[i].id == pid
}

/// The position of the player with identity `pid`.
pub open spec fn idx_of(players: Seq<PlayerView>, pid: u32) -> int {
    choose|i: int| 0 <= i < players.len() && players[i].id == pid
}

/// The registry entry of the player with identity `pid`.
pub open spec fn player_of(g: GameView, pid: u32) -> PlayerView {
    g.players[idx_of(g.players, pid)]
}

/// The hit points of the player with identity `pid`.
pub open spec fn hp_of(g: GameView, pid: u32) -> int {
    player_of(g, pid).hp
}

/// No two registry entries share an identity.
pub open spec fn unique_ids(players: Seq<PlayerView>) -> bool {
    forall|i: int, j: int|
        0 <= i < j < players.len() ==> players[i].id != players[j].id
}

/// The session invariant: limits fit in a byte, every resource value sits
/// inside its bounds, identities are unique, and the occupancy — when held —
/// names a player that exists.
pub open spec fn wf(g: GameView) -> bool {
    &&& 0 <= g.max_hp <= 255
    &&& 0 <= g.max_vp <= 255
    &&& forall|i: int|
        0 <= i < g.players.len() ==> {
            &&& 0 <= #[trigger] g.players[i].hp <= g.max_hp
            &&& 0 <= g.players[i].victory_points <= g.max_vp
            &&& 0 <= g.players[i].energy <= 0xFFFF_FFFF
        }
    &&& unique_ids(g.players)
    &&& match g.tokyo_controller_id {
        Some(x) => has_player(g.players, x),
        None => true,
    }
}

/// Two registries with the same identities in the same order agree on which
/// players exist.
pub proof fn lemma_same_ids_has_player(a: Seq<PlayerView>, b: Seq<PlayerView>, pid: u32)
    requires
        a.len() == b.len(),
        forall|i: int| 0 <= i < a.len() ==> a[i].id == #[trigger] b[i].id,
        has_player(a, pid),
    ensures
        has_player(b, pid),
{
    let i = choose|i: int| 0 <= i < a.len() && a[i].id == pid;
    assert(b[i].id == pid);
}

// ---------------------------------------------------------------------------
// The game manager itself
// ---------------------------------------------------------------------------
/// The central game manager.
pub struct Game {
    pub players: Vec<Player>,
    pub tokyo_controller_id: Option<u32>,
    pub max_hp: u8,
    pub max_vp: u8,
}

impl View for Game {
    type V = GameView;

    open spec fn view(&self) -> GameView {
        GameView {
            players: self.players@.map_values(|p: Player| p@),
            tokyo_controller_id: self.tokyo_controller_id,
            max_hp: self.max_hp as int,
            max_vp: self.max_vp as int,
        }
    }
}

/// One bounded change to a single player's resources.
#[derive(Debug, PartialEq, Eq, Structural, Clone, Copy)]
pub enum ResourceChange {
    AwardPoints(u8),
    GainEnergy(u8),
    Heal(u8),
    Damage(u8),
}

impl Game {
    /// Creates a session: one player per name, with sequential identities
    /// starting at 1, starting hp of 10, no points and no energy; Tokyo
    /// vacant; limits of 12 hp and 20 victory points.
    pub fn new(player_names: &[&str]) -> (g: Game)
        requires
            player_names@.len() <= 0xFFFF_FFFF,
        ensures
            g@.players.len() == player_names@.len(),
            forall|i: int|
                0 <= i < player_names@.len() ==> #[trigger] g@.players[i] == (PlayerView {
                    id: (i + 1) as u32,
                    name: player_names@[i]@,
                    hp: 10,
                    victory_points: 0,
                    energy: 0,
                }),
            g@.tokyo_controller_id is None,
            g@.max_hp == 12,
            g@.max_vp == 20,
            wf(g@),
    {
        let n = player_names.len();
        let mut players: Vec<Player> = Vec::new();
        let mut i: usize = 0;
        while i < n
            invariant
                i <= n,
                n == player_names@.len(),
                n <= 0xFFFF_FFFF,
                players@.len() == i,
                forall|j: int|
                    0 <= j < i ==> #[trigger] players@[j]@ == (PlayerView {
                        id: (j + 1) as u32,
                        name: player_names@[j]@,
                        hp: 10,
                        victory_points: 0,
                        energy: 0,
                    }),
            decreases n - i,
        {
            let name = player_names[i];
            players.push(Player::new((i as u32) + 1, name));
            i = i + 1;
        }
        let g = Game { players, tokyo_controller_id: None, max_hp: 12, max_vp: 20 };
        proof {
            assert forall|i2: int| 0 <= i2 < g@.players.len() implies #[trigger] g@.players[i2]
                == (PlayerView {
                id: (i2 + 1) as u32,
                name: player_names@[i2]@,
                hp: 10,
                victory_points: 0,
                energy: 0,
            }) by {
                assert(g@.players[i2] == g.players@[i2]@);
            }
        }
        g
    }

    /// Applies one resource change to the player with the given identity;
    /// every other player, the occupancy, and the limits are untouched.
    fn apply_to_player(&mut self, player_id: u32, change: ResourceChange)
        ensures
            (match change {
                ResourceChange::AwardPoints(a) => final(self)@.players == award_points_all(
                    old(self)@.players,
                    player_id,
                    a as int,
                    old(self)@.max_vp,
                ),
                ResourceChange::GainEnergy(a) => final(self)@.players == gain_energy_all(
                    old(self)@.players,
                    player_id,
                    a as int,
                ),
                ResourceChange::Heal(a) => final(self)@.players == heal_all(
                    old(self)@.players,
                    player_id,
                    a as int,
                    old(self)@.max_hp,
                ),
                ResourceChange::Damage(d) => final(self)@.players == damage_one_all(
                    old(self)@.players,
                    player_id,
                    d as int,
                ),
            }),
            final(self)@.tokyo_controller_id == old(self)@.tokyo_controller_id,
            final(self)@.max_hp == old(self)@.max_hp,
            final(self)@.max_vp == old(self)@.max_vp,
    {
        let n = self.players.len();
        let max_hp = self.max_hp;
        let max_vp = self.max_vp;
        let mut i: usize = 0;
        while i < n
            invariant
                i <= n,
                n == self.players@.len(),
                n == old(self).players@.len(),
                self.tokyo_controller_id == old(self).tokyo_controller_id,
                self.max_hp == old(self).max_hp,
                self.max_vp == old(self).max_vp,
                max_hp == self.max_hp,
                max_vp == self.max_vp,
                forall|j: int|
                    0 <= j < i ==> #[trigger] self.players@[j]@ == change_target(
                        old(self).players@[j]@,
                        player_id,
                        change,
                        old(self)@.max_hp,
                        old(self)@.max_vp,
                    ),
                forall|j: int|
                    i <= j < n ==> #[trigger] self.players@[j] == old(self).players@[j],
            decreases n - i,
        {
            if self.players[i].id == player_id {
                match change {
                    ResourceChange::AwardPoints(a) => {
                        let cur = self.players[i].victory_points;
                        let v = if cur as u16 + a as u16 > max_vp as u16 {
                            max_vp
                        } else {
                            cur + a
                        };
                        self.players[i].victory_points = v;
                    },
                    ResourceChange::GainEnergy(a) => {
                        let cur = self.players[i].energy;
                        let v = if cur as u64 + a as u64 > 0xFFFF_FFFF {
                            0xFFFF_FFFF
                        } else {
                            cur + a as u32
                        };
                        self.players[i].energy = v;
                    },
                    ResourceChange::Heal(a) => {
                        let cur = self.players[i].hp;
                        let v = if cur as u16 + a as u16 > max_hp as u16 {
                            max_hp
                        } else {
                            cur + a
                        };
                        self.players[i].hp = v;
                    },
                    ResourceChange::Damage(d) => {
                        let cur = self.players[i].hp;
                        let v = if cur <= d {
                            0
                        } else {
                            cur - d
                        };
                        self.players[i].hp = v;
                    },
                }
            }
            i = i + 1;
        }
        proof {
            match change {
                ResourceChange::AwardPoints(a) => {
                    assert(self@.players =~= award_points_all(
                        old(self)@.players,
                        player_id,
                        a as int,
                        old(self)@.max_vp,
                    ));
                },
                ResourceChange::GainEnergy(a) => {
                    assert(self@.players =~= gain_energy_all(
                        old(self)@.players,
                        player_id,
                        a as int,
                    ));
                },
                ResourceChange::Heal(a) => {
                    assert(self@.players =~= heal_all(
                        old(self)@.players,
                        player_id,
                        a as int,
                        old(self)@.max_hp,
                    ));
                },
                ResourceChange::Damage(d) => {
                    assert(self@.players =~= damage_one_all(
                        old(self)@.players,
                        player_id,
                        d as int,
                    ));
                },
            }
        }
    }

    /// Deals `damage` to every player other than the one with the given
    /// identity; the occupancy and the limits are untouched.
    fn damage_others(&mut self, player_id: u32, damage: u8)
        ensures
            final(self)@.players == damage_others_all(
                old(self)@.players,
                player_id,
                damage as int,
            ),
            final(self)@.tokyo_controller_id == old(self)@.tokyo_controller_id,
            final(self)@.max_hp == old(self)@.max_hp,
            final(self)@.max_vp == old(self)@.max_vp,
    {
        let n = self.players.len();
        let mut i: usize = 0;
        while i < n
            invariant
                i <= n,
                n == self.players@.len(),
                n == old(self).players@.len(),
                self.tokyo_controller_id == old(self).tokyo_controller_id,
                self.max_hp == old(self).max_hp,
                self.max_vp == old(self).max_vp,
                forall|j: int|
                    0 <= j < i ==> #[trigger] self.players@[j]@ == (if old(
                        self,
                    ).players@[j]@.id == player_id {
                        old(self).players@[j]@
                    } else {
                        damaged(old(self).players@[j]@, damage as int)
                    }),
                forall|j: int|
                    i <= j < n ==> #[trigger] self.players@[j] == old(self).players@[j],
            decreases n - i,
        {
            if self.players[i].id != player_id {
                let cur = self.players[i].hp;
                let v = if cur <= damage {
                    0
                } else {
                    cur - damage
                };
                self.players[i].hp = v;
            }
            i = i + 1;
        }
        proof {
            assert(self@.players =~= damage_others_all(
                old(self)@.players,
                player_id,
                damage as int,
            ));
        }
    }

    /// Finds a player by identity, for read-only access: the first registry
    /// entry carrying that identity, or nothing when no entry does.
    pub fn get_player(&self, player_id: u32) -> (r: Option<&Player>)
        ensures
            (match r {
                Some(p) => {
                    &&& has_player(self@.players, player_id)
                    &&& p@.id == player_id
                    &&& unique_ids(self@.players) ==> p@ == player_of(self@, player_id)
                },
                None => !has_player(self@.players, player_id),
            }),
    {
        let n = self.players.len();
        let mut i: usize = 0;
        while i < n
            invariant
                i <= n,
                n == self.players@.len(),
                forall|j: int| 0 <= j < i ==> #[trigger] self.players@[j]@.id != player_id,
            decreases n - i,
        {
            if self.players[i].id == player_id {
                proof {
                    assert(self@.players[i as int].id == player_id);
                    if unique_ids(self@.players) {
                        let k = idx_of(self@.players, player_id);
                        assert(0 <= k < self@.players.len() && self@.players[k].id == player_id);
                        if k != i as int {
                            assert(false);
                        }
                    }
                }
                return Some(&self.players[i]);
            }
            i = i + 1;
        }
        proof {
            if has_player(self@.players, player_id) {
                let k = choose|k: int|
                    0 <= k < self@.players.len() && self@.players[k].id == player_id;
                assert(self.players@[k]@.id == player_id);
                assert(false);
            }
        }
        None
    }

    /// Reads the hit points of the player with the given identity.
    fn get_hp(&self, player_id: u32) -> (hp: u8)
        requires
            unique_ids(self@.players),
            has_player(self@.players, player_id),
        ensures
            hp as int == hp_of(self@, player_id),
    {
        let n = self.players.len();
        let mut i: usize = 0;
        while i < n
            invariant
                i <= n,
                n == self.players@.len(),
                unique_ids(self@.players),
                has_player(self@.players, player_id),
                forall|j: int| 0 <= j < i ==> #[trigger] self.players@[j]@.id != player_id,
            decreases n - i,
        {
            if self.players[i].id == player_id {
                proof {
                    let k = idx_of(self@.players, player_id);
                    assert(self@.players[i as int].id == player_id);
                    assert(0 <= k < self@.players.len() && self@.players[k].id == player_id);
                    if k != i as int {
                        assert(false);
                    }
                }
                return self.players[i].hp;
            }
            i = i + 1;
        }
        proof {
            let k = idx_of(self@.players, player_id);
            assert(0 <= k < self@.players.len() && self@.players[k].id == player_id);
            assert(false);
        }
        0
    }
}

impl Game {
    /// Awards 2 victory points, capped at `max_vp`, to the Tokyo occupant —
    /// the start-of-turn bonus for holding control. Nothing happens while
    /// Tokyo is vacant.
    pub fn apply_tokyo_control_points(&mut self)
        ensures
            final(self)@ == spec_tokyo_bonus(old(self)@),
            wf(old(self)@) ==> wf(final(self)@),
    {
        match self.tokyo_controller_id {
            Some(controller_id) => {
                self.apply_to_player(controller_id, ResourceChange::AwardPoints(2));
                proof {
                    if wf(old(self)@) {
                        lemma_award_points_wf(old(self)@, controller_id, 2);
                        let ps = award_points_all(
                            old(self)@.players,
                            controller_id,
                            2,
                            old(self)@.max_vp,
                        );
                        assert forall|i: int|
                            0 <= i < old(self)@.players.len() implies old(self)@.players[i].id
                            == #[trigger] ps[i].id by {}
                        lemma_same_ids_has_player(old(self)@.players, ps, controller_id);
                    }
                }
            },
            None => {},
        }
    }

    /// Runs the entry decision over a (now) vacant Tokyo for the acting
    /// player.
    fn enter_decision(&mut self, player_id: u32, enter: bool)
        ensures
            final(self)@ == after_enter_decision(old(self)@, player_id, enter),
    {
        if enter {
            self.tokyo_controller_id = Some(player_id);
            self.apply_to_player(player_id, ResourceChange::AwardPoints(1));
        }
    }

    /// Resolves all dice results of one player's turn: number scoring,
    /// energy, hearts, then the claw / occupancy step, exactly as
    /// [`spec_process_roll`] lays the turn out. The three decision answers
    /// stand in for the external decision provider; answers at branch
    /// points the turn never reaches are ignored.
    pub fn process_roll(
        &mut self,
        player_id: u32,
        results: &[DieResult; 6],
        decisions: TurnDecisions,
    )
        requires
            wf(old(self)@),
            has_player(old(self)@.players, player_id),
        ensures
            final(self)@ == spec_process_roll(old(self)@, player_id, results@, decisions),
            wf(final(self)@),
            has_player(final(self)@.players, player_id),
    {
        proof {
            lemma_count_face_bounds(results@, DieResult::One);
            lemma_count_face_bounds(results@, DieResult::Two);
            lemma_count_face_bounds(results@, DieResult::Three);
            lemma_count_face_bounds(results@, DieResult::Energy);
            lemma_count_face_bounds(results@, DieResult::Claw);
            lemma_count_face_bounds(results@, DieResult::Heart);
            lemma_spec_process_roll_wf(old(self)@, player_id, results@, decisions);
        }
        let t = tally(results);
        let mut award: u8 = 0;
        if t.ones >= 3 {
            award = award + 1 + (t.ones - 3);
        }
        if t.twos >= 3 {
            award = award + 2 + (t.twos - 3);
        }
        if t.threes >= 3 {
            award = award + 3 + (t.threes - 3);
        }
        assert(award as int == number_award(results@));

        let ghost g0 = old(self)@;
        let ghost g1 = after_numbers(g0, player_id, results@);
        let ghost g2 = after_energy(g1, player_id, results@);
        let ghost g3 = after_hearts(g2, player_id, results@);

        let in_tokyo = match self.tokyo_controller_id {
            Some(x) => x == player_id,
            None => false,
        };

        self.apply_to_player(player_id, ResourceChange::AwardPoints(award));
        assert(self@ == g1);
        self.apply_to_player(player_id, ResourceChange::GainEnergy(t.energy));
        assert(self@ == g2);
        if !in_tokyo {
            self.apply_to_player(player_id, ResourceChange::Heal(t.hearts));
        }
        assert(self@ == g3);
        proof {
            lemma_award_points_wf(g0, player_id, number_award(results@));
            assert forall|i: int|
                0 <= i < g0.players.len() implies g0.players[i].id == #[trigger] g1.players[i].id by {}
            lemma_same_ids_has_player(g0.players, g1.players, player_id);
            lemma_gain_energy_wf(g1, player_id, count_face(results@, DieResult::Energy));
            assert forall|i: int|
                0 <= i < g1.players.len() implies g1.players[i].id == #[trigger] g2.players[i].id by {}
            lemma_same_ids_has_player(g1.players, g2.players, player_id);
            if g2.tokyo_controller_id != Some(player_id) {
                lemma_heal_wf(g2, player_id, count_face(results@, DieResult::Heart));
                assert forall|i: int|
                    0 <= i < g2.players.len() implies g2.players[i].id
                    == #[trigger] g3.players[i].id by {}
                lemma_same_ids_has_player(g2.players, g3.players, player_id);
            }
            assert(wf(g3) && has_player(g3.players, player_id));
        }

        if t.claws > 0 {
            if in_tokyo {
                self.damage_others(player_id, t.claws);
                let ghost g4 = with_players(
                    g3,
                    damage_others_all(g3.players, player_id, t.claws as int),
                );
                assert(self@ == g4);
                proof {
                    lemma_damage_others_wf(g3, player_id, t.claws as int);
                    assert forall|i: int|
                        0 <= i < g3.players.len() implies g3.players[i].id
                        == #[trigger] g4.players[i].id by {}
                    lemma_same_ids_has_player(g3.players, g4.players, player_id);
                }
                let hp = self.get_hp(player_id);
                if hp > 0 && decisions.concede_after_attack {
                    self.tokyo_controller_id = None;
                }
            } else {
                match self.tokyo_controller_id {
                    Some(x) => {
                        proof {
                            assert(has_player(g3.players, x));
                        }
                        self.apply_to_player(x, ResourceChange::Damage(t.claws));
                        let ghost g4 = with_players(
                            g3,
                            damage_one_all(g3.players, x, t.claws as int),
                        );
                        assert(self@ == g4);
                        proof {
                            lemma_damage_one_wf(g3, x, t.claws as int);
                            assert forall|i: int|
                                0 <= i < g3.players.len() implies g3.players[i].id
                                == #[trigger] g4.players[i].id by {}
                            lemma_same_ids_has_player(g3.players, g4.players, player_id);
                            lemma_same_ids_has_player(g3.players, g4.players, x);
                        }
                        let xhp = self.get_hp(x);
                        if xhp == 0 {
                            self.tokyo_controller_id = None;
                            assert(self@ == with_tokyo(g4, None));
                            self.enter_decision(player_id, decisions.enter_tokyo);
                        } else if decisions.concede_under_attack {
                            self.tokyo_controller_id = None;
                            assert(self@ == with_tokyo(g4, None));
                            self.enter_decision(player_id, decisions.enter_tokyo);
                        }
                    },
                    None => {
                        self.enter_decision(player_id, decisions.enter_tokyo);
                    },
                }
            }
        }
        assert(self@ == spec_process_roll(g0, player_id, results@, decisions));
    }

    /// Which decision points resolving this roll will consult, read off the
    /// state before the roll. The attacking occupant's concession is asked
    /// only while the attacker still stands; an attacked occupant's
    /// concession only if the occupant survives the damage; and the entry
    /// question directly when Tokyo is vacant or the occupant falls. After
    /// an affirmative concession under attack the entry question follows as
    /// well.
    pub fn pending_decisions(&self, player_id: u32, results: &[DieResult; 6]) -> (p:
        DecisionPoints)
        requires
            wf(self@),
            has_player(self@.players, player_id),
        ensures
            p.ask_concede_after_attack == (count_face(results@, DieResult::Claw) > 0
                && self@.tokyo_controller_id == Some(player_id) && hp_of(self@, player_id) > 0),
            p.ask_concede_under_attack == (match self@.tokyo_controller_id {
                Some(x) => count_face(results@, DieResult::Claw) > 0 && x != player_id && sat_sub(
                    hp_of(self@, x),
                    count_face(results@, DieResult::Claw),
                ) > 0,
                None => false,
            }),
            p.ask_enter_directly == (count_face(results@, DieResult::Claw) > 0 && (
            match self@.tokyo_controller_id {
                Some(x) => x != player_id && sat_sub(
                    hp_of(self@, x),
                    count_face(results@, DieResult::Claw),
                ) == 0,
                None => true,
            })),
    {
        let t = tally(results);
        let mut p = DecisionPoints {
            ask_concede_after_attack: false,
            ask_concede_under_attack: false,
            ask_enter_directly: false,
        };
        if t.claws == 0 {
            return p;
        }
        match self.tokyo_controller_id {
            Some(x) => {
                if x == player_id {
                    let hp = self.get_hp(player_id);
                    p.ask_concede_after_attack = hp > 0;
                } else {
                    let xhp = self.get_hp(x);
                    if xhp > t.claws {
                        p.ask_concede_under_attack = true;
                    } else {
                        p.ask_enter_directly = true;
                    }
                }
            },
            None => {
                p.ask_enter_directly = true;
            },
        }
        p
    }
}

/// The decision points one call of [`Game::process_roll`] will consult:
/// which of the three questions an external decision provider must be ready
/// to answer. The entry question is marked directly only where no
/// concession answer can gate it.
#[derive(Debug, PartialEq, Eq, Structural, Clone, Copy)]
pub struct DecisionPoints {
    pub ask_concede_after_attack: bool,
    pub ask_concede_under_attack: bool,
    pub ask_enter_directly: bool,
}

// ---------------------------------------------------------------------------
// The turn model
// ---------------------------------------------------------------------------
/// The three yes/no answers that resolving one roll may consult: whether the
/// attacking occupant concedes Tokyo, whether an attacked occupant concedes,
/// and whether the acting player enters a vacant Tokyo. Answers that the
/// turn never reaches are ignored.
#[derive(Debug, PartialEq, Eq, Structural, Clone, Copy)]
pub struct TurnDecisions {
    pub concede_after_attack: bool,
    pub concede_under_attack: bool,
    pub enter_tokyo: bool,
}

/// Points a numeral face is worth: its base value for three of a kind, plus
/// one per matching die beyond three; nothing below three of a kind.
pub open spec fn number_award_of(count: int, base: int) -> int {
    if count >= 3 {
        base + (count - 3)
    } else {
        0
    }
}

/// The combined victory-point award of the three numeral faces.
pub open spec fn number_award(roll: Seq<DieResult>) -> int {
    number_award_of(count_face(roll, DieResult::One), 1) + number_award_of(
        count_face(roll, DieResult::Two),
        2,
    ) + number_award_of(count_face(roll, DieResult::Three), 3)
}

/// Number scoring: the acting player gains the combined numeral award in a
/// single capped addition.
pub open spec fn after_numbers(g: GameView, pid: u32, roll: Seq<DieResult>) -> GameView {
    with_players(g, award_points_all(g.players, pid, number_award(roll), g.max_vp))
}

/// Energy: the acting player gains one energy per Energy face.
pub open spec fn after_energy(g: GameView, pid: u32, roll: Seq<DieResult>) -> GameView {
    with_players(g, gain_energy_all(g.players, pid, count_face(roll, DieResult::Energy)))
}

/// Hearts: the acting player heals one hit point per Heart face, capped at
/// `max_hp` — unless that player occupies Tokyo, in which case every heart
/// is discarded.
pub open spec fn after_hearts(g: GameView, pid: u32, roll: Seq<DieResult>) -> GameView {
    if g.tokyo_controller_id == Some(pid) {
        g
    } else {
        with_players(g, heal_all(g.players, pid, count_face(roll, DieResult::Heart), g.max_hp))
    }
}

/// The entry decision over a vacant Tokyo: on a yes, the acting player
/// takes occupancy and gains one victory point; on a no, nothing changes.
pub open spec fn after_enter_decision(g: GameView, pid: u32, enter: bool) -> GameView {
    if enter {
        with_players(with_tokyo(g, Some(pid)), award_points_all(g.players, pid, 1, g.max_vp))
    } else {
        g
    }
}

/// The claw step. With no claws nothing happens. An attacking occupant
/// damages everyone else and may then concede. A challenger damages the
/// occupant: if the occupant falls to zero or concedes, Tokyo empties and
/// the challenger faces the entry decision; if the occupant holds, the turn
/// ends at once. Against a vacant Tokyo the challenger goes straight to the
/// entry decision.
pub open spec fn after_claws(g: GameView, pid: u32, claws: int, d: TurnDecisions) -> GameView {
    if claws <= 0 {
        g
    } else {
        match g.tokyo_controller_id {
            Some(x) => if x == pid {
                let g1 = with_players(g, damage_others_all(g.players, pid, claws));
                if hp_of(g1, pid) > 0 && d.concede_after_attack {
                    with_tokyo(g1, None)
                } else {
                    g1
                }
            } else {
                let g1 = with_players(g, damage_one_all(g.players, x, claws));
                if hp_of(g1, x) == 0 {
                    after_enter_decision(with_tokyo(g1, None), pid, d.enter_tokyo)
                } else if d.concede_under_attack {
                    after_enter_decision(with_tokyo(g1, None), pid, d.enter_tokyo)
                } else {
                    g1
                }
            },
            None => after_enter_decision(g, pid, d.enter_tokyo),
        }
    }
}

/// The whole turn: tally, number scoring, energy, hearts, then the claw /
/// occupancy step, in that fixed order.
pub open spec fn spec_process_roll(
    g: GameView,
    pid: u32,
    roll: Seq<DieResult>,
    d: TurnDecisions,
) -> GameView {
    let g1 = after_numbers(g, pid, roll);
    let g2 = after_energy(g1, pid, roll);
    let g3 = after_hearts(g2, pid, roll);
    after_claws(g3, pid, count_face(roll, DieResult::Claw), d)
}

/// The start-of-turn bonus: the occupant, if any, gains two victory points.
pub open spec fn spec_tokyo_bonus(g: GameView) -> GameView {
    match g.tokyo_controller_id {
        Some(x) => with_players(g, award_points_all(g.players, x, 2, g.max_vp)),
        None => g,
    }
}

// ---------------------------------------------------------------------------
// The model keeps the invariant
// ---------------------------------------------------------------------------
/// A registry change that keeps every identity and every bound keeps the
/// whole invariant.
pub proof fn lemma_pointwise_wf(g: GameView, ps: Seq<PlayerView>)
    requires
        wf(g),
        ps.len() == g.players.len(),
        forall|i: int| 0 <= i < ps.len() ==> #[trigger] ps[i].id == g.players[i].id,
        forall|i: int|
            0 <= i < ps.len() ==> {
                &&& 0 <= #[trigger] ps[i].hp <= g.max_hp
                &&& 0 <= ps[i].victory_points <= g.max_vp
                &&& 0 <= ps[i].energy <= 0xFFFF_FFFF
            },
    ensures
        wf(with_players(g, ps)),
{
    assert forall|i: int, j: int| 0 <= i < j < ps.len() implies ps[i].id != ps[j].id by {
        assert(ps[i].id == g.players[i].id);
        assert(ps[j].id == g.players[j].id);
    }
    match g.tokyo_controller_id {
        Some(x) => {
            lemma_same_ids_has_player(g.players, ps, x);
        },
        None => {},
    }
}

/// Awarding victory points keeps the invariant.
pub proof fn lemma_award_points_wf(g: GameView, pid: u32, d: int)
    requires
        wf(g),
        d >= 0,
    ensures
        wf(with_players(g, award_points_all(g.players, pid, d, g.max_vp))),
{
    let ps = award_points_all(g.players, pid, d, g.max_vp);
    assert forall|i: int| 0 <= i < ps.len() implies #[trigger] ps[i].id == g.players[i].id by {}
    assert forall|i: int| 0 <= i < ps.len() implies {
        &&& 0 <= #[trigger] ps[i].hp <= g.max_hp
        &&& 0 <= ps[i].victory_points <= g.max_vp
        &&& 0 <= ps[i].energy <= 0xFFFF_FFFF
    } by {}
    lemma_pointwise_wf(g, ps);
}

/// Gaining energy keeps the invariant.
pub proof fn lemma_gain_energy_wf(g: GameView, pid: u32, d: int)
    requires
        wf(g),
        d >= 0,
    ensures
        wf(with_players(g, gain_energy_all(g.players, pid, d))),
{
    let ps = gain_energy_all(g.players, pid, d);
    assert forall|i: int| 0 <= i < ps.len() implies #[trigger] ps[i].id == g.players[i].id by {}
    assert forall|i: int| 0 <= i < ps.len() implies {
        &&& 0 <= #[trigger] ps[i].hp <= g.max_hp
        &&& 0 <= ps[i].victory_points <= g.max_vp
        &&& 0 <= ps[i].energy <= 0xFFFF_FFFF
    } by {}
    lemma_pointwise_wf(g, ps);
}

/// Healing keeps the invariant.
pub proof fn lemma_heal_wf(g: GameView, pid: u32, d: int)
    requires
        wf(g),
        d >= 0,
    ensures
        wf(with_players(g, heal_all(g.players, pid, d, g.max_hp))),
{
    let ps = heal_all(g.players, pid, d, g.max_hp);
    assert forall|i: int| 0 <= i < ps.len() implies #[trigger] ps[i].id == g.players[i].id by {}
    assert forall|i: int| 0 <= i < ps.len() implies {
        &&& 0 <= #[trigger] ps[i].hp <= g.max_hp
        &&& 0 <= ps[i].victory_points <= g.max_vp
        &&& 0 <= ps[i].energy <= 0xFFFF_FFFF
    } by {}
    lemma_pointwise_wf(g, ps);
}

/// Damaging one player keeps the invariant.
pub proof fn lemma_damage_one_wf(g: GameView, pid: u32, d: int)
    requires
        wf(g),
        d >= 0,
    ensures
        wf(with_players(g, damage_one_all(g.players, pid, d))),
{
    let ps = damage_one_all(g.players, pid, d);
    assert forall|i: int| 0 <= i < ps.len() implies #[trigger] ps[i].id == g.players[i].id by {}
    assert forall|i: int| 0 <= i < ps.len() implies {
        &&& 0 <= #[trigger] ps[i].hp <= g.max_hp
        &&& 0 <= ps[i].victory_points <= g.max_vp
        &&& 0 <= ps[i].energy <= 0xFFFF_FFFF
    } by {}
    lemma_pointwise_wf(g, ps);
}

/// Damaging everyone else keeps the invariant.
pub proof fn lemma_damage_others_wf(g: GameView, pid: u32, d: int)
    requires
        wf(g),
        d >= 0,
    ensures
        wf(with_players(g, damage_others_all(g.players, pid, d))),
{
    let ps = damage_others_all(g.players, pid, d);
    assert forall|i: int| 0 <= i < ps.len() implies #[trigger] ps[i].id == g.players[i].id by {}
    assert forall|i: int| 0 <= i < ps.len() implies {
        &&& 0 <= #[trigger] ps[i].hp <= g.max_hp
        &&& 0 <= ps[i].victory_points <= g.max_vp
        &&& 0 <= ps[i].energy <= 0xFFFF_FFFF
    } by {}
    lemma_pointwise_wf(g, ps);
}

/// The entry decision keeps the invariant.
pub proof fn lemma_after_enter_wf(g: GameView, pid: u32, enter: bool)
    requires
        wf(g),
        has_player(g.players, pid),
    ensures
        wf(after_enter_decision(g, pid, enter)),
{
    if enter {
        lemma_award_points_wf(g, pid, 1);
        let ps = award_points_all(g.players, pid, 1, g.max_vp);
        assert forall|i: int| 0 <= i < g.players.len() implies g.players[i].id == #[trigger] ps[i].id by {}
        lemma_same_ids_has_player(g.players, ps, pid);
    }
}

/// The claw step keeps the invariant.
pub proof fn lemma_after_claws_wf(g: GameView, pid: u32, claws: int, d: TurnDecisions)
    requires
        wf(g),
        has_player(g.players, pid),
        claws >= 0,
    ensures
        wf(after_claws(g, pid, claws, d)),
{
    if claws > 0 {
        match g.tokyo_controller_id {
            Some(x) => {
                if x == pid {
                    lemma_damage_others_wf(g, pid, claws);
                    let ps = damage_others_all(g.players, pid, claws);
                    assert forall|i: int| 0 <= i < g.players.len() implies g.players[i].id
                        == #[trigger] ps[i].id by {}
                    lemma_same_ids_has_player(g.players, ps, pid);
                } else {
                    lemma_damage_one_wf(g, x, claws);
                    let ps = damage_one_all(g.players, x, claws);
                    assert forall|i: int| 0 <= i < g.players.len() implies g.players[i].id
                        == #[trigger] ps[i].id by {}
                    lemma_same_ids_has_player(g.players, ps, pid);
                    lemma_same_ids_has_player(g.players, ps, x);
                    let g1 = with_players(g, ps);
                    assert(wf(with_tokyo(g1, None)));
                    lemma_after_enter_wf(with_tokyo(g1, None), pid, d.enter_tokyo);
                }
            },
            None => {
                lemma_after_enter_wf(g, pid, d.enter_tokyo);
            },
        }
    }
}

/// Resolving a whole roll keeps the invariant, whatever the roll and
/// whatever the decisions.
pub proof fn lemma_spec_process_roll_wf(g: GameView, pid: u32, roll: Seq<DieResult>, d: TurnDecisions)
    requires
        wf(g),
        has_player(g.players, pid),
    ensures
        wf(spec_process_roll(g, pid, roll, d)),
        has_player(spec_process_roll(g, pid, roll, d).players, pid),
{
    lemma_count_face_bounds(roll, DieResult::One);
    lemma_count_face_bounds(roll, DieResult::Two);
    lemma_count_face_bounds(roll, DieResult::Three);
    lemma_count_face_bounds(roll, DieResult::Energy);
    lemma_count_face_bounds(roll, DieResult::Heart);
    lemma_count_face_bounds(roll, DieResult::Claw);
    let g1 = after_numbers(g, pid, roll);
    lemma_award_points_wf(g, pid, number_award(roll));
    assert forall|i: int| 0 <= i < g.players.len() implies g.players[i].id
        == #[trigger] g1.players[i].id by {}
    lemma_same_ids_has_player(g.players, g1.players, pid);
    let g2 = after_energy(g1, pid, roll);
    lemma_gain_energy_wf(g1, pid, count_face(roll, DieResult::Energy));
    assert forall|i: int| 0 <= i < g1.players.len() implies g1.players[i].id
        == #[trigger] g2.players[i].id by {}
    lemma_same_ids_has_player(g1.players, g2.players, pid);
    let g3 = after_hearts(g2, pid, roll);
    if g2.tokyo_controller_id != Some(pid) {
        lemma_heal_wf(g2, pid, count_face(roll, DieResult::Heart));
        assert forall|i: int| 0 <= i < g2.players.len() implies g2.players[i].id
            == #[trigger] g3.players[i].id by {}
        lemma_same_ids_has_player(g2.players, g3.players, pid);
    }
    lemma_after_claws_wf(g3, pid, count_face(roll, DieResult::Claw), d);
    let g4 = after_claws(g3, pid, count_face(roll, DieResult::Claw), d);
    assert(has_player(g4.players, pid)) by {
        if count_face(roll, DieResult::Claw) > 0 {
            match g3.tokyo_controller_id {
                Some(x) => {
                    if x == pid {
                        let ps = damage_others_all(g3.players, pid, count_face(roll, DieResult::Claw));
                        assert forall|i: int| 0 <= i < g3.players.len() implies g3.players[i].id
                            == #[trigger] ps[i].id by {}
                        lemma_same_ids_has_player(g3.players, ps, pid);
                    } else {
                        let ps = damage_one_all(g3.players, x, count_face(roll, DieResult::Claw));
                        assert forall|i: int| 0 <= i < g3.players.len() implies g3.players[i].id
                            == #[trigger] ps[i].id by {}
                        lemma_same_ids_has_player(g3.players, ps, pid);
                        if d.enter_tokyo {
                            let ps2 = award_points_all(ps, pid, 1, g3.max_vp);
                            assert forall|i: int| 0 <= i < ps.len() implies ps[i].id
                                == #[trigger] ps2[i].id by {}
                            lemma_same_ids_has_player(ps, ps2, pid);
                        }
                    }
                },
                None => {
                    if d.enter_tokyo {
                        let ps2 = award_points_all(g3.players, pid, 1, g3.max_vp);
                        assert forall|i: int| 0 <= i < g3.players.len() implies g3.players[i].id
                            == #[trigger] ps2[i].id by {}
                        lemma_same_ids_has_player(g3.players, ps2, pid);
                    }
                },
            }
        }
    }
}

/// With unique identities, looking a player up lands on the same position
/// before and after a registry-wide effect that keeps every identity.
pub proof fn lemma_idx_of_same_ids(a: Seq<PlayerView>, b: Seq<PlayerView>, pid: u32)
    requires
        a.len() == b.len(),
        forall|i: int| 0 <= i < a.len() ==> a[i].id == #[trigger] b[i].id,
        unique_ids(a),
        has_player(a, pid),
    ensures
        has_player(b, pid),
        idx_of(b, pid) == idx_of(a, pid),
        0 <= idx_of(a, pid) < a.len(),
        a[idx_of(a, pid)].id == pid,
{
    lemma_same_ids_has_player(a, b, pid);
    let i = idx_of(a, pid);
    let j = idx_of(b, pid);
    assert(0 <= i < a.len() && a[i].id == pid);
    assert(0 <= j < b.len() && b[j].id == pid);
    assert(a[j].id == pid);
    if i < j {
        assert(a[i].id != a[j].id);
    }
    if j < i {
        assert(a[j].id != a[i].id);
    }
}

/// Heart healing is suppressed exactly when the acting player occupies
/// Tokyo at the start of the turn; otherwise every Heart face heals one
/// hit point, capped at `max_hp`. Either way the acting player's hit
/// points end the turn at or below `max_hp`.
pub proof fn lemma_heart_healing(g: GameView, pid: u32, roll: Seq<DieResult>, d: TurnDecisions)
    requires
        wf(g),
        has_player(g.players, pid),
    ensures
        g.tokyo_controller_id == Some(pid) ==> hp_of(spec_process_roll(g, pid, roll, d), pid)
            == hp_of(g, pid),
        g.tokyo_controller_id != Some(pid) ==> hp_of(spec_process_roll(g, pid, roll, d), pid)
            == cap_add(hp_of(g, pid), count_face(roll, DieResult::Heart), g.max_hp),
        hp_of(spec_process_roll(g, pid, roll, d), pid) <= g.max_hp,
{
    lemma_count_face_bounds(roll, DieResult::One);
    lemma_count_face_bounds(roll, DieResult::Two);
    lemma_count_face_bounds(roll, DieResult::Three);
    lemma_count_face_bounds(roll, DieResult::Energy);
    lemma_count_face_bounds(roll, DieResult::Heart);
    lemma_count_face_bounds(roll, DieResult::Claw);
    let c = count_face(roll, DieResult::Claw);
    let hearts = count_face(roll, DieResult::Heart);

    let g1 = after_numbers(g, pid, roll);
    lemma_award_points_wf(g, pid, number_award(roll));
    assert forall|i: int| 0 <= i < g.players.len() implies g.players[i].id
        == #[trigger] g1.players[i].id by {}
    lemma_idx_of_same_ids(g.players, g1.players, pid);
    let i0 = idx_of(g.players, pid);
    assert(g1.players[i0].hp == g.players[i0].hp);
    assert(hp_of(g1, pid) == hp_of(g, pid));

    let g2 = after_energy(g1, pid, roll);
    lemma_gain_energy_wf(g1, pid, count_face(roll, DieResult::Energy));
    assert forall|i: int| 0 <= i < g1.players.len() implies g1.players[i].id
        == #[trigger] g2.players[i].id by {}
    lemma_idx_of_same_ids(g1.players, g2.players, pid);
    assert(hp_of(g2, pid) == hp_of(g, pid));

    let g3 = after_hearts(g2, pid, roll);
    if g.tokyo_controller_id == Some(pid) {
        assert(g3 == g2);
    } else {
        lemma_heal_wf(g2, pid, hearts);
        assert forall|i: int| 0 <= i < g2.players.len() implies g2.players[i].id
            == #[trigger] g3.players[i].id by {}
        lemma_idx_of_same_ids(g2.players, g3.players, pid);
        assert(g3.players[i0] == healed(g2.players[i0], hearts, g2.max_hp));
        assert(hp_of(g3, pid) == cap_add(hp_of(g, pid), hearts, g.max_hp));
    }
    assert(wf(g3));
    assert(has_player(g3.players, pid));
    assert(g3.tokyo_controller_id == g.tokyo_controller_id);
    assert(g3.max_hp == g.max_hp);

    let g4 = after_claws(g3, pid, c, d);
    if c > 0 {
        match g3.tokyo_controller_id {
            Some(x) => {
                if x == pid {
                    let ps = damage_others_all(g3.players, pid, c);
                    assert forall|i: int| 0 <= i < g3.players.len() implies g3.players[i].id
                        == #[trigger] ps[i].id by {}
                    lemma_idx_of_same_ids(g3.players, ps, pid);
                    let ga = with_players(g3, ps);
                    assert(ps[idx_of(g3.players, pid)] == g3.players[idx_of(g3.players, pid)]);
                    assert(hp_of(ga, pid) == hp_of(g3, pid));
                    assert(g4.players == ps);
                    assert(hp_of(g4, pid) == hp_of(g3, pid));
                } else {
                    let ps = damage_one_all(g3.players, x, c);
                    assert forall|i: int| 0 <= i < g3.players.len() implies g3.players[i].id
                        == #[trigger] ps[i].id by {}
                    lemma_idx_of_same_ids(g3.players, ps, pid);
                    let ib = idx_of(g3.players, pid);
                    assert(g3.players[ib].id == pid);
                    assert(ps[ib].hp == g3.players[ib].hp);
                    let gb = with_players(g3, ps);
                    assert(hp_of(gb, pid) == hp_of(g3, pid));
                    if hp_of(gb, x) == 0 || d.concede_under_attack {
                        if d.enter_tokyo {
                            let ps2 = award_points_all(ps, pid, 1, g3.max_vp);
                            assert forall|i: int| 0 <= i < ps.len() implies ps[i].id
                                == #[trigger] ps2[i].id by {}
                            lemma_damage_one_wf(g3, x, c);
                            lemma_idx_of_same_ids(ps, ps2, pid);
                            assert(ps2[ib].hp == ps[ib].hp);
                            assert(g4.players == ps2);
                            assert(hp_of(g4, pid) == hp_of(g3, pid));
                        } else {
                            assert(g4.players == ps);
                            assert(hp_of(g4, pid) == hp_of(g3, pid));
                        }
                    } else {
                        assert(g4 == gb);
                        assert(hp_of(g4, pid) == hp_of(g3, pid));
                    }
                }
            },
            None => {
                if d.enter_tokyo {
                    let ps2 = award_points_all(g3.players, pid, 1, g3.max_vp);
                    assert forall|i: int| 0 <= i < g3.players.len() implies g3.players[i].id
                        == #[trigger] ps2[i].id by {}
                    lemma_idx_of_same_ids(g3.players, ps2, pid);
                    let ib = idx_of(g3.players, pid);
                    assert(ps2[ib].hp == g3.players[ib].hp);
                    assert(g4.players == ps2);
                    assert(hp_of(g4, pid) == hp_of(g3, pid));
                } else {
                    assert(g4 == g3);
                }
            },
        }
    }
    assert(hp_of(g4, pid) == hp_of(g3, pid) || g4 == g3);
    if g.tokyo_controller_id == Some(pid) {
        let ig = idx_of(g.players, pid);
        assert(0 <= hp_of(g, pid) <= g.max_hp);
    }
}

// ---------------------------------------------------------------------------
// Victory evaluation
// ---------------------------------------------------------------------------
/// How a session can end: a player reaches the victory-point limit, a
/// player is the last one standing, or every player is eliminated at once.
#[derive(Debug, PartialEq, Eq, Structural, Clone, Copy)]
pub enum VictoryOutcome {
    PointsWin(u32),
    SurvivalWin(u32),
    Draw,
}

/// The first player, in registry order, that is alive and has reached the
/// victory-point limit.
pub open spec fn points_winner(players: Seq<PlayerView>, max_vp: int) -> Option<u32>
    decreases players.len(),
{
    if players.len() == 0 {
        None
    } else if players[0].hp > 0 && players[0].victory_points >= max_vp {
        Some(players[0].id)
    } else {
        points_winner(players.drop_first(), max_vp)
    }
}

/// How many players are still alive.
pub open spec fn active_count(players: Seq<PlayerView>) -> int
    decreases players.len(),
{
    if players.len() == 0 {
        0
    } else {
        (if players[0].hp > 0 {
            1int
        } else {
            0int
        }) + active_count(players.drop_first())
    }
}

/// The first player, in registry order, that is still alive.
pub open spec fn first_active(players: Seq<PlayerView>) -> Option<u32>
    decreases players.len(),
{
    if players.len() == 0 {
        None
    } else if players[0].hp > 0 {
        Some(players[0].id)
    } else {
        first_active(players.drop_first())
    }
}

/// The terminal outcome, if any: a points win takes priority; otherwise a
/// single survivor wins by survival; zero survivors is a draw; anything
/// else means the game goes on.
pub open spec fn spec_victory(g: GameView) -> Option<VictoryOutcome> {
    match points_winner(g.players, g.max_vp) {
        Some(w) => Some(VictoryOutcome::PointsWin(w)),
        None => if active_count(g.players) == 0 {
            Some(VictoryOutcome::Draw)
        } else if active_count(g.players) == 1 {
            match first_active(g.players) {
                Some(w) => Some(VictoryOutcome::SurvivalWin(w)),
                None => None,
            }
        } else {
            None
        },
    }
}

impl Game {
    /// Checks whether the game has ended: the first alive player at the
    /// victory-point limit wins by points; failing that, a sole survivor
    /// wins by survival, and no survivors at all is a mutual elimination.
    pub fn check_victory_condition(&self) -> (r: Option<VictoryOutcome>)
        ensures
            r == spec_victory(self@),
    {
        let n = self.players.len();
        let mut points_w: Option<u32> = None;
        let mut first_a: Option<u32> = None;
        let mut active: usize = 0;
        let mut i: usize = 0;
        proof {
            assert(self@.players.skip(0) =~= self@.players);
        }
        while i < n
            invariant
                i <= n,
                n == self.players@.len(),
                active <= i,
                points_winner(self@.players, self@.max_vp) == (match points_w {
                    Some(w) => Some(w),
                    None => points_winner(self@.players.skip(i as int), self@.max_vp),
                }),
                active_count(self@.players) == active + active_count(
                    self@.players.skip(i as int),
                ),
                first_active(self@.players) == (match first_a {
                    Some(w) => Some(w),
                    None => first_active(self@.players.skip(i as int)),
                }),
            decreases n - i,
        {
            proof {
                assert(self@.players.skip(i as int).drop_first() =~= self@.players.skip(
                    i as int + 1,
                ));
                assert(self@.players.skip(i as int)[0] == self@.players[i as int]);
            }
            let p_hp = self.players[i].hp;
            let p_vp = self.players[i].victory_points;
            let p_id = self.players[i].id;
            if p_hp > 0 {
                active = active + 1;
                if first_a.is_none() {
                    first_a = Some(p_id);
                }
                if points_w.is_none() && p_vp >= self.max_vp {
                    points_w = Some(p_id);
                }
            }
            i = i + 1;
        }
        proof {
            assert(self@.players.skip(n as int) =~= Seq::<PlayerView>::empty());
        }
        match points_w {
            Some(w) => Some(VictoryOutcome::PointsWin(w)),
            None => if active == 0 {
                Some(VictoryOutcome::Draw)
            } else if active == 1 {
                match first_a {
                    Some(w) => Some(VictoryOutcome::SurvivalWin(w)),
                    None => None,
                }
            } else {
                None
            },
        }
    }
}

/// The points winner is the qualifying player when everyone before it in
/// registry order fails to qualify.
proof fn lemma_points_winner_at(players: Seq<PlayerView>, max_vp: int, i: int)
    requires
        0 <= i < players.len(),
        players[i].hp > 0,
        players[i].victory_points >= max_vp,
        forall|j: int|
            0 <= j < i ==> !(#[trigger] players[j].hp > 0 && players[j].victory_points >= max_vp),
    ensures
        points_winner(players, max_vp) == Some(players[i].id),
    decreases i,
{
    if i > 0 {
        lemma_points_winner_at(players.drop_first(), max_vp, i - 1);
    }
}

/// With no alive player at the limit there is no points winner.
proof fn lemma_points_winner_none(players: Seq<PlayerView>, max_vp: int)
    requires
        forall|j: int|
            0 <= j < players.len() ==> !(#[trigger] players[j].hp > 0
                && players[j].victory_points >= max_vp),
    ensures
        points_winner(players, max_vp) is None,
    decreases players.len(),
{
    if players.len() > 0 {
        lemma_points_winner_none(players.drop_first(), max_vp);
    }
}

/// With nobody alive there is no active player at all.
proof fn lemma_active_none(players: Seq<PlayerView>)
    requires
        forall|j: int| 0 <= j < players.len() ==> #[trigger] players[j].hp <= 0,
    ensures
        active_count(players) == 0,
        first_active(players) is None,
    decreases players.len(),
{
    if players.len() > 0 {
        lemma_active_none(players.drop_first());
    }
}

/// With exactly one player alive, that player is the one active player.
proof fn lemma_active_single(players: Seq<PlayerView>, i: int)
    requires
        0 <= i < players.len(),
        players[i].hp > 0,
        forall|j: int| 0 <= j < players.len() && j != i ==> #[trigger] players[j].hp <= 0,
    ensures
        active_count(players) == 1,
        first_active(players) == Some(players[i].id),
    decreases i,
{
    if i == 0 {
        assert forall|j: int| 0 <= j < players.drop_first().len() implies #[trigger] players.drop_first()[j].hp
            <= 0 by {
            assert(players.drop_first()[j] == players[j + 1]);
        }
        lemma_active_none(players.drop_first());
    } else {
        lemma_active_single(players.drop_first(), i - 1);
    }
}

/// An alive player at the victory-point limit, with everyone else below the
/// limit, is reported as the points winner.
pub proof fn lemma_victory_points_win(g: GameView, i: int)
    requires
        0 <= i < g.players.len(),
        g.players[i].hp > 0,
        g.players[i].victory_points >= g.max_vp,
        forall|j: int|
            0 <= j < g.players.len() && j != i ==> #[trigger] g.players[j].victory_points
                < g.max_vp,
    ensures
        spec_victory(g) == Some(VictoryOutcome::PointsWin(g.players[i].id)),
{
    lemma_points_winner_at(g.players, g.max_vp, i);
}

/// A sole survivor below the victory-point limit is reported as the
/// survival winner.
pub proof fn lemma_victory_survival(g: GameView, i: int)
    requires
        0 <= i < g.players.len(),
        g.players[i].hp > 0,
        g.players[i].victory_points < g.max_vp,
        forall|j: int| 0 <= j < g.players.len() && j != i ==> #[trigger] g.players[j].hp <= 0,
    ensures
        spec_victory(g) == Some(VictoryOutcome::SurvivalWin(g.players[i].id)),
{
    lemma_points_winner_none(g.players, g.max_vp);
    lemma_active_single(g.players, i);
}

/// With every player eliminated, a mutual elimination is reported.
pub proof fn lemma_victory_draw(g: GameView)
    requires
        forall|j: int| 0 <= j < g.players.len() ==> #[trigger] g.players[j].hp <= 0,
    ensures
        spec_victory(g) == Some(VictoryOutcome::Draw),
{
    lemma_points_winner_none(g.players, g.max_vp);
    lemma_active_none(g.players);
}

/// What the change target of one registry entry is.
pub open spec fn change_target(
    q: PlayerView,
    pid: u32,
    c: ResourceChange,
    max_hp: int,
    max_vp: int,
) -> PlayerView {
    if q.id == pid {
        match c {
            ResourceChange::AwardPoints(a) => vp_awarded(q, a as int, max_vp),
            ResourceChange::GainEnergy(a) => energy_gained(q, a as int),
            ResourceChange::Heal(a) => healed(q, a as int, max_hp),
            ResourceChange::Damage(d) => damaged(q, d as int),
        }
    } else {
        q
    }
}

} // verus!
