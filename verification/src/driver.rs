//! Batch driver: N independent environment slots, each hosting M co-located
//! agents, stepped in parallel over disjoint per-slot state, with auto-reset
//! of any slot whose episode ended.

use vstd::prelude::*;

use crate::codec::{
    action_char, decode_action, decode_spec, encode_observation, frame_of, obs_matches,
    orientation, orientation_spec, OBS_SIZE,
};
use crate::game::{
    alive_count, count_alive_pub, step_rel, views_of, wf, DeathReason, GameInstance, GameV,
    PlayerV, PLAYER_STARTING_LENGTH,
};
use rayon::iter::IndexedParallelIterator;
use rayon::iter::IntoParallelRefMutIterator;
use rayon::iter::ParallelIterator;

verus! {

/// Boards in the batch are square with this side.
pub const BATCH_BOARD_DIM: u32 = 11;

/// Per-tick food spawn chance of batched games, as a numerator per mille.
pub const BATCH_FOOD_CHANCE: u32 = 150;

/// A snapshot of one slot's primary agent after a tick (the driver reports
/// the state immediately after the tick's mutation, before any auto-reset).
#[derive(Clone, Copy, PartialEq, Eq, Structural, Debug)]
pub struct Info {
    pub health: u32,
    pub length: usize,
    pub turn: u32,
    pub alive_count: usize,
    pub death_reason: DeathReason,
    pub alive: bool,
    pub ate: bool,
    pub over: bool,
}

/// One environment slot: its game, its agents' observation tensors, their
/// pending action indices, and the last reported Info.
pub struct Slot {
    pub env: GameInstance,
    pub obs: Vec<Vec<u8>>,
    pub acts: Vec<u8>,
    pub info: Info,
}

/// Mathematical model of a slot.
pub ghost struct SlotV {
    pub env: GameV,
    pub obs: Seq<Seq<u8>>,
    pub acts: Seq<u8>,
    pub info: Info,
}

impl View for Slot {
    type V = SlotV;

    open spec fn view(&self) -> SlotV {
        SlotV {
            env: self.env@,
            obs: self.obs@.map_values(|o: Vec<u8>| o@),
            acts: self.acts@,
            info: self.info,
        }
    }
}

/// A slot that is ready to be stepped: a live, well-formed game on the
/// batch's fixed board, a live primary agent, one tensor and one in-range
/// action index per agent.
pub open spec fn slot_wf(s: SlotV, n_models: int) -> bool {
    &&& wf(s.env)
    &&& s.env.width == BATCH_BOARD_DIM
    &&& s.env.height == BATCH_BOARD_DIM
    &&& s.env.num_players == n_models
    &&& s.env.food_chance == BATCH_FOOD_CHANCE
    &&& s.env.players.len() == n_models
    &&& s.env.players[0].alive
    &&& !s.env.over
    &&& s.obs.len() == n_models
    &&& forall|m: int| 0 <= m < n_models ==> (#[trigger] s.obs[m]).len() == OBS_SIZE
    &&& s.acts.len() == n_models
    &&& forall|m: int| 0 <= m < n_models ==> (#[trigger] s.acts[m]) < 4
}

/// The game with every agent's buffered action decoded into its pending
/// move, under that agent's own frame for this tick.
pub open spec fn with_moves(g: GameV, acts: Seq<u8>, fixed: bool, sym: bool) -> GameV {
    GameV {
        players: Seq::new(
            g.players.len(),
            |m: int|
                PlayerV {
                    move_dir: decode_spec(
                        frame_of(
                            g.players[m].body[0],
                            g.players[m].body[1],
                            orientation_spec(g.game_id, g.turn, g.players[m].id, fixed),
                            sym,
                        ),
                        action_char(acts[m] as int),
                    ),
                    ..g.players[m]
                },
        ),
        ..g
    }
}

/// A game as a fresh construction leaves it.
pub open spec fn fresh_env(g: GameV, n_models: int) -> bool {
    &&& wf(g)
    &&& g.width == BATCH_BOARD_DIM
    &&& g.height == BATCH_BOARD_DIM
    &&& g.num_players == n_models
    &&& g.food_chance == BATCH_FOOD_CHANCE
    &&& g.turn == 0
    &&& !g.over
    &&& g.players.len() == n_models
    &&& forall|i: int|
        0 <= i < n_models ==> (#[trigger] g.players[i]).alive && g.players[i].health == 100
            && g.players[i].body.len() == PLAYER_STARTING_LENGTH
}

/// The Info a stepped game yields for its primary agent, read after the
/// tick's mutation.
pub open spec fn info_of(mid: GameV) -> Info {
    Info {
        health: mid.players[0].health as u32,
        length: mid.players[0].body.len() as usize,
        turn: mid.turn,
        alive_count: alive_count(mid.players) as usize,
        death_reason: mid.players[0].death_reason,
        alive: mid.players[0].alive,
        ate: mid.players[0].health == 100 && mid.turn > 0,
        over: !mid.players[0].alive || mid.over,
    }
}

/// The Info a freshly reset slot reports.
pub open spec fn start_info(n_models: int) -> Info {
    Info {
        health: 100,
        length: PLAYER_STARTING_LENGTH,
        turn: 0,
        alive_count: n_models as usize,
        death_reason: DeathReason::NotDead,
        alive: true,
        ate: false,
        over: false,
    }
}

/// Every agent's tensor mirrors the slot's game under its own frame.
pub open spec fn slot_obs_ok(s: SlotV, n_models: int, fixed: bool, sym: bool) -> bool {
    forall|m: int|
        0 <= m < n_models ==> obs_matches(
            s.env.players,
            s.env.food,
            s.env.width,
            s.env.height,
            m,
            orientation_spec(s.env.game_id, s.env.turn, s.env.players[m].id, fixed),
            sym,
            #[trigger] s.obs[m],
        )
}

/// What one slot's tick does: the buffered actions are decoded and applied,
/// the game steps once, the Info reports the stepped game's primary agent,
/// a finished episode (primary dead or game over) is replaced by a fresh
/// game, and every agent's tensor is re-encoded from the surviving or fresh
/// game. The action buffer is the caller's and is untouched.
pub open spec fn slot_step_rel(
    pre: SlotV,
    post: SlotV,
    n_models: int,
    fixed: bool,
    sym: bool,
) -> bool {
    &&& exists|mid: GameV|
        {
            &&& #[trigger] step_rel(with_moves(pre.env, pre.acts, fixed, sym), mid)
            &&& wf(mid)
            &&& post.info == info_of(mid)
            &&& if !mid.players[0].alive || mid.over {
                fresh_env(post.env, n_models)
            } else {
                post.env == mid
            }
        }
    &&& post.acts == pre.acts
    &&& slot_wf(post, n_models)
    &&& slot_obs_ok(post, n_models, fixed, sym)
}

/// What resetting one slot does: a fresh game, start-of-episode Info, and
/// freshly encoded tensors; the action buffer is untouched.
pub open spec fn slot_reset_rel(
    pre: SlotV,
    post: SlotV,
    n_models: int,
    fixed: bool,
    sym: bool,
) -> bool {
    &&& fresh_env(post.env, n_models)
    &&& post.info == start_info(n_models)
    &&& post.acts == pre.acts
    &&& slot_wf(post, n_models)
    &&& slot_obs_ok(post, n_models, fixed, sym)
}

/// Re-encode every agent's tensor of one slot from its current game.
#[verifier::rlimit(100)]
fn encode_slot(s: &mut Slot, n_models: usize, fixed: bool, sym: bool)
    requires
        1 <= n_models <= 8,
        wf(old(s)@.env),
        old(s)@.env.players.len() == n_models,
        old(s)@.obs.len() == n_models,
    ensures
        final(s)@.env == old(s)@.env,
        final(s)@.acts == old(s)@.acts,
        final(s)@.info == old(s)@.info,
        final(s)@.obs.len() == n_models,
        slot_obs_ok(final(s)@, n_models as int, fixed, sym),
        forall|m: int| 0 <= m < n_models ==> (#[trigger] final(s)@.obs[m]).len() == OBS_SIZE,
{
    let ghost env0 = s@.env;
    let ghost acts0 = s@.acts;
    let ghost info0 = s@.info;
    let mut m: usize = 0;
    while m < n_models
        invariant
            0 <= m <= n_models,
            1 <= n_models <= 8,
            wf(env0),
            env0.players.len() == n_models,
            s@.env == env0,
            s@.acts == acts0,
            s@.info == info0,
            s@.obs.len() == n_models,
            forall|k: int|
                0 <= k < m ==> obs_matches(
                    env0.players,
                    env0.food,
                    env0.width,
                    env0.height,
                    k,
                    orientation_spec(env0.game_id, env0.turn, env0.players[k].id, fixed),
                    sym,
                    #[trigger] s@.obs[k],
                ) && s@.obs[k].len() == OBS_SIZE,
        decreases n_models - m,
    {
        proof {
            assert forall|k: int|
                0 <= k < s.env.players@.len() implies (#[trigger] s.env.players@[k]@).body.len()
                >= 2 && 0 <= s.env.players@[k]@.health <= 100 by {
                assert(env0.players[k] == s.env.players@[k]@);
                assert(env0.players[k].id >= crate::game::ID_MIN);
            }
        }
        let pid = s.env.players[m].id;
        let ori = orientation(s.env.game_id, s.env.turn, pid, fixed);
        let ob = encode_observation(
            &s.env.players,
            &s.env.food,
            s.env.board_width,
            s.env.board_height,
            m,
            ori,
            sym,
        );
        let ghost obv = ob@;
        let ghost obs_pre = s@.obs;
        s.obs[m] = ob;
        proof {
            assert forall|k: int| 0 <= k < n_models implies #[trigger] s@.obs[k] == (if k
                == m as int {
                obv
            } else {
                obs_pre[k]
            }) by {
                assert(s@.obs[k] == s.obs@[k]@);
            }
            assert(obs_matches(
                env0.players,
                env0.food,
                env0.width,
                env0.height,
                m as int,
                orientation_spec(env0.game_id, env0.turn, env0.players[m as int].id, fixed),
                sym,
                obv,
            ));
        }
        m += 1;
    }
    proof {
        assert(slot_obs_ok(s@, n_models as int, fixed, sym));
    }
}

/// Step one slot: decode and apply the buffered actions, advance the game a
/// tick, report the primary agent, replace a finished episode with a fresh
/// game, and re-encode every agent's tensor.
#[verifier::loop_isolation(false)]
#[verifier::rlimit(100)]
pub fn step_slot(s: &mut Slot, n_models: usize, fixed: bool, sym: bool)
    requires
        1 <= n_models <= 8,
        slot_wf(old(s)@, n_models as int),
    ensures
        slot_step_rel(old(s)@, final(s)@, n_models as int, fixed, sym),
        slot_wf(final(s)@, n_models as int),
{
    let ghost pre = s@;
    let ghost wm = with_moves(pre.env, pre.acts, fixed, sym);
    // Decode each agent's buffered action under its own frame and set it as
    // that player's pending move.
    let mut m: usize = 0;
    while m < n_models
        invariant
            0 <= m <= n_models,
            wf(s@.env),
            s@.env.players.len() == n_models,
            s@.acts == pre.acts,
            s@.obs == pre.obs,
            s@.info == pre.info,
            s@.env.width == pre.env.width,
            s@.env.height == pre.env.height,
            s@.env.num_players == pre.env.num_players,
            s@.env.food_chance == pre.env.food_chance,
            s@.env.game_id == pre.env.game_id,
            s@.env.turn == pre.env.turn,
            s@.env.over == pre.env.over,
            s@.env.board == pre.env.board,
            s@.env.food == pre.env.food,
            forall|k: int| m <= k < n_models ==> #[trigger] s@.env.players[k] == pre.env.players[k],
            forall|k: int| 0 <= k < m ==> #[trigger] s@.env.players[k] == wm.players[k],
        decreases n_models - m,
    {
        proof {
            assert(s@.env.players[m as int] == pre.env.players[m as int]);
            assert(pre.env.players[m as int].id >= crate::game::ID_MIN);
            assert(pre.acts[m as int] < 4);
        }
        let head = s.env.players[m].body[0];
        let neck = s.env.players[m].body[1];
        let pid = s.env.players[m].id;
        let a = s.acts[m];
        let ori = orientation(s.env.game_id, s.env.turn, pid, fixed);
        let mv = decode_action(a, head, neck, ori, sym);
        let ghost env_before = s@.env;
        s.env.set_player_move(pid, mv);
        proof {
            // Ids are untouched by pending-move updates, so only index m
            // carries this id and only it changed.
            assert forall|k: int| 0 <= k < n_models implies #[trigger] env_before.players[k].id
                == pre.env.players[k].id by {}
            assert forall|k: int|
                0 <= k < n_models && k != m implies #[trigger] s@.env.players[k]
                == env_before.players[k] by {
                assert(env_before.players[k].id != pid);
            }
            assert(s@.env.players[m as int] == (PlayerV {
                move_dir: mv,
                ..env_before.players[m as int]
            }));
            assert(s@.env.players[m as int] == wm.players[m as int]);
        }
        m += 1;
    }
    proof {
        assert(s@.env.players =~= wm.players);
        assert(s@.env == wm);
    }
    // Advance the game one tick.
    s.env.step();
    let ghost mid = s@.env;
    proof {
        assert(step_rel(wm, mid));
        assert(mid.players.len() == n_models);
        assert(mid.players[0].id >= crate::game::ID_MIN);
    }
    // Report the primary agent, as the tick left it.
    let p0health = s.env.players[0].health;
    let p0len = s.env.players[0].body.len();
    let p0alive = s.env.players[0].alive;
    let p0reason = s.env.players[0].death_reason;
    let turn_now = s.env.get_turn();
    let alive_n = count_alive_pub(&s.env.players);
    let done = !p0alive || s.env.is_over();
    s.info = Info {
        health: p0health,
        length: p0len,
        turn: turn_now,
        alive_count: alive_n,
        death_reason: p0reason,
        alive: p0alive,
        ate: p0health == 100 && turn_now > 0,
        over: done,
    };
    proof {
        assert(s@.info == info_of(mid));
    }
    // A finished episode is transparently replaced by a fresh one.
    if done {
        s.env = GameInstance::new(BATCH_BOARD_DIM, BATCH_BOARD_DIM, n_models as u32, BATCH_FOOD_CHANCE);
    }
    // Every agent sees the surviving (or fresh) game.
    encode_slot(s, n_models, fixed, sym);
    proof {
        assert(slot_step_rel(pre, s@, n_models as int, fixed, sym)) by {
            assert(step_rel(with_moves(pre.env, pre.acts, fixed, sym), mid) && wf(mid) && s@.info
                == info_of(mid) && if !mid.players[0].alive || mid.over {
                fresh_env(s@.env, n_models as int)
            } else {
                s@.env == mid
            });
        }
    }
}

/// Reset one slot: a fresh game, start-of-episode Info, fresh tensors.
pub fn reset_slot(s: &mut Slot, n_models: usize, fixed: bool, sym: bool)
    requires
        1 <= n_models <= 8,
        old(s)@.obs.len() == n_models,
        old(s)@.acts.len() == n_models,
        forall|m: int| 0 <= m < n_models ==> (#[trigger] old(s)@.acts[m]) < 4,
    ensures
        slot_reset_rel(old(s)@, final(s)@, n_models as int, fixed, sym),
        slot_wf(final(s)@, n_models as int),
{
    s.env = GameInstance::new(BATCH_BOARD_DIM, BATCH_BOARD_DIM, n_models as u32, BATCH_FOOD_CHANCE);
    s.info = Info {
        health: 100,
        length: PLAYER_STARTING_LENGTH,
        turn: 0,
        alive_count: n_models,
        death_reason: DeathReason::NotDead,
        alive: true,
        ate: false,
        over: false,
    };
    encode_slot(s, n_models, fixed, sym);
}

} // verus!

verus! {

/// Relies on rayon's ParallelIterator::for_each over par_iter_mut: the
/// closure is applied exactly once to each slot, each call with exclusive
/// access to its own slot, so each element pair satisfies the verified
/// step_slot's contract.
#[verifier::external_body]
fn par_step_slots(slots: &mut Vec<Slot>, n_models: usize, fixed: bool, sym: bool)
    requires
        1 <= n_models <= 8,
        forall|i: int|
            0 <= i < old(slots)@.len() ==> slot_wf(#[trigger] old(slots)@[i]@, n_models as int),
    ensures
        final(slots)@.len() == old(slots)@.len(),
        forall|i: int|
            0 <= i < old(slots)@.len() ==> slot_step_rel(
                #[trigger] old(slots)@[i]@,
                final(slots)@[i]@,
                n_models as int,
                fixed,
                sym,
            ) && slot_wf(final(slots)@[i]@, n_models as int),
{
    slots.par_iter_mut().for_each(|s| step_slot(s, n_models, fixed, sym));
}

/// Relies on rayon's ParallelIterator::for_each over par_iter_mut: the
/// closure is applied exactly once to each slot, each call with exclusive
/// access to its own slot, so each element pair satisfies the verified
/// reset_slot's contract.
#[verifier::external_body]
fn par_reset_slots(slots: &mut Vec<Slot>, n_models: usize, fixed: bool, sym: bool)
    requires
        1 <= n_models <= 8,
        forall|i: int|
            0 <= i < old(slots)@.len() ==> (#[trigger] old(slots)@[i]@).obs.len() == n_models
                && old(slots)@[i]@.acts.len() == n_models && (forall|m: int|
                0 <= m < n_models ==> (#[trigger] old(slots)@[i]@.acts[m]) < 4),
    ensures
        final(slots)@.len() == old(slots)@.len(),
        forall|i: int|
            0 <= i < old(slots)@.len() ==> slot_reset_rel(
                #[trigger] old(slots)@[i]@,
                final(slots)@[i]@,
                n_models as int,
                fixed,
                sym,
            ) && slot_wf(final(slots)@[i]@, n_models as int),
{
    slots.par_iter_mut().for_each(|s| reset_slot(s, n_models, fixed, sym));
}

} // verus!

verus! {

/// The batch driver: owns every slot and its buffers for the whole run.
pub struct GameWrapper {
    pub n_envs: usize,
    pub n_models: usize,
    pub fixed_orientation: bool,
    pub use_symmetry: bool,
    pub slots: Vec<Slot>,
}

/// The driver's invariant: one well-formed, steppable slot per environment.
pub open spec fn wrapper_wf(gw: GameWrapper) -> bool {
    &&& 1 <= gw.n_models <= 8
    &&& gw.slots@.len() == gw.n_envs
    &&& forall|i: int|
        0 <= i < gw.slots@.len() ==> slot_wf(#[trigger] gw.slots@[i]@, gw.n_models as int)
}

impl GameWrapper {
    /// Build a driver with every slot freshly reset.
    pub fn new(n_envs: usize, n_models: usize, fixed_orientation: bool, use_symmetry: bool) -> (gw:
        GameWrapper)
        requires
            1 <= n_models <= 8,
        ensures
            wrapper_wf(gw),
            gw.n_envs == n_envs,
            gw.n_models == n_models,
            gw.fixed_orientation == fixed_orientation,
            gw.use_symmetry == use_symmetry,
    {
        let mut slots: Vec<Slot> = Vec::new();
        let mut i: usize = 0;
        while i < n_envs
            invariant
                0 <= i <= n_envs,
                1 <= n_models <= 8,
                slots@.len() == i,
                forall|k: int|
                    0 <= k < i ==> slot_wf(#[trigger] slots@[k]@, n_models as int),
            decreases n_envs - i,
        {
            let env = GameInstance::new(
                BATCH_BOARD_DIM,
                BATCH_BOARD_DIM,
                n_models as u32,
                BATCH_FOOD_CHANCE,
            );
            let mut acts: Vec<u8> = Vec::new();
            let mut m: usize = 0;
            while m < n_models
                invariant
                    0 <= m <= n_models,
                    acts@.len() == m,
                    forall|k: int| 0 <= k < m ==> (#[trigger] acts@[k]) < 4,
                decreases n_models - m,
            {
                acts.push(0);
                m += 1;
            }
            let mut s = Slot {
                env: env,
                obs: Vec::new(),
                acts: acts,
                info: Info {
                    health: 100,
                    length: PLAYER_STARTING_LENGTH,
                    turn: 0,
                    alive_count: n_models,
                    death_reason: DeathReason::NotDead,
                    alive: true,
                    ate: false,
                    over: false,
                },
            };
            let mut m2: usize = 0;
            while m2 < n_models
                invariant
                    0 <= m2 <= n_models,
                    s@.obs.len() == m2,
                    s@.env == env@,
                    s@.acts == acts@,
                    forall|k: int| 0 <= k < m2 ==> (#[trigger] s@.obs[k]).len() == OBS_SIZE,
                decreases n_models - m2,
            {
                let mut layer: Vec<u8> = Vec::new();
                let mut c: usize = 0;
                while c < OBS_SIZE
                    invariant
                        layer@.len() == c,
                        c <= OBS_SIZE,
                    decreases OBS_SIZE - c,
                {
                    layer.push(0);
                    c += 1;
                }
                let ghost obs0 = s@.obs;
                let ghost lv = layer@;
                s.obs.push(layer);
                proof {
                    assert forall|k: int| 0 <= k < m2 + 1 implies (#[trigger] s@.obs[k]).len()
                        == OBS_SIZE by {
                        assert(s@.obs[k] == s.obs@[k]@);
                        if k < m2 as int {
                            assert(s@.obs[k] == obs0[k]);
                            assert(obs0[k].len() == OBS_SIZE);
                        } else {
                            assert(s.obs@[k]@ == lv);
                        }
                    }
                }
                m2 += 1;
            }
            slots.push(s);
            i += 1;
        }
        GameWrapper {
            n_envs: n_envs,
            n_models: n_models,
            fixed_orientation: fixed_orientation,
            use_symmetry: use_symmetry,
            slots: slots,
        }
    }

    /// Reset every slot in parallel to a fresh episode.
    pub fn reset(&mut self)
        requires
            wrapper_wf(*old(self)),
        ensures
            wrapper_wf(*final(self)),
            final(self).n_envs == old(self).n_envs,
            final(self).n_models == old(self).n_models,
            final(self).fixed_orientation == old(self).fixed_orientation,
            final(self).use_symmetry == old(self).use_symmetry,
            final(self).slots@.len() == old(self).slots@.len(),
            forall|i: int|
                0 <= i < old(self).slots@.len() ==> slot_reset_rel(
                    #[trigger] old(self).slots@[i]@,
                    final(self).slots@[i]@,
                    old(self).n_models as int,
                    old(self).fixed_orientation,
                    old(self).use_symmetry,
                ),
    {
        let n = self.n_models;
        let fx = self.fixed_orientation;
        let sy = self.use_symmetry;
        par_reset_slots(&mut self.slots, n, fx, sy);
        proof {
            assert forall|i: int| 0 <= i < self.slots@.len() implies slot_wf(
                #[trigger] self.slots@[i]@,
                n as int,
            ) by {
                assert(slot_reset_rel(old(self).slots@[i]@, self.slots@[i]@, n as int, fx, sy));
            }
        }
    }

    /// Step every slot in parallel: decode its actions, advance its game,
    /// report its primary agent, auto-reset a finished episode, re-encode.
    pub fn step(&mut self)
        requires
            wrapper_wf(*old(self)),
        ensures
            wrapper_wf(*final(self)),
            final(self).n_envs == old(self).n_envs,
            final(self).n_models == old(self).n_models,
            final(self).fixed_orientation == old(self).fixed_orientation,
            final(self).use_symmetry == old(self).use_symmetry,
            final(self).slots@.len() == old(self).slots@.len(),
            forall|i: int|
                0 <= i < old(self).slots@.len() ==> slot_step_rel(
                    #[trigger] old(self).slots@[i]@,
                    final(self).slots@[i]@,
                    old(self).n_models as int,
                    old(self).fixed_orientation,
                    old(self).use_symmetry,
                ),
    {
        let n = self.n_models;
        let fx = self.fixed_orientation;
        let sy = self.use_symmetry;
        par_step_slots(&mut self.slots, n, fx, sy);
        proof {
            assert forall|i: int| 0 <= i < self.slots@.len() implies slot_wf(
                #[trigger] self.slots@[i]@,
                n as int,
            ) by {
                assert(slot_step_rel(old(self).slots@[i]@, self.slots@[i]@, n as int, fx, sy));
            }
        }
    }

    /// Buffer one agent's next action index.
    pub fn set_action(&mut self, env_i: usize, model_i: usize, a: u8)
        requires
            wrapper_wf(*old(self)),
            env_i < old(self).n_envs,
            model_i < old(self).n_models,
            a < 4,
        ensures
            wrapper_wf(*final(self)),
            final(self).n_envs == old(self).n_envs,
            final(self).n_models == old(self).n_models,
            final(self).fixed_orientation == old(self).fixed_orientation,
            final(self).use_symmetry == old(self).use_symmetry,
            final(self).slots@.len() == old(self).slots@.len(),
            final(self).slots@[env_i as int]@.acts == old(self).slots@[env_i as int]@.acts.update(
                model_i as int,
                a,
            ),
            final(self).slots@[env_i as int]@.env == old(self).slots@[env_i as int]@.env,
            final(self).slots@[env_i as int]@.obs == old(self).slots@[env_i as int]@.obs,
            final(self).slots@[env_i as int]@.info == old(self).slots@[env_i as int]@.info,
            forall|i: int|
                0 <= i < old(self).slots@.len() && i != env_i ==> #[trigger] final(self).slots@[i]
                    == old(self).slots@[i],
    {
        proof {
            assert(slot_wf(self.slots@[env_i as int]@, self.n_models as int));
        }
        self.slots[env_i].acts[model_i] = a;
        proof {
            let sv = self.slots@[env_i as int]@;
            assert(slot_wf(sv, self.n_models as int)) by {
                assert forall|m: int| 0 <= m < self.n_models implies (#[trigger] sv.acts[m])
                    < 4 by {}
            }
        }
    }

    /// One agent's observation tensor.
    pub fn obs_at(&self, env_i: usize, model_i: usize) -> (r: &Vec<u8>)
        requires
            wrapper_wf(*self),
            env_i < self.n_envs,
            model_i < self.n_models,
        ensures
            r@ == self.slots@[env_i as int]@.obs[model_i as int],
    {
        &self.slots[env_i].obs[model_i]
    }

    /// One slot's last reported Info.
    pub fn get_info(&self, env_i: usize) -> (r: Info)
        requires
            wrapper_wf(*self),
            env_i < self.n_envs,
        ensures
            r == self.slots@[env_i as int]@.info,
    {
        self.slots[env_i].info
    }
}

} // verus!
