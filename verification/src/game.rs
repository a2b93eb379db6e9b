//! Single-game state machine: board occupancy, player roster, food lifecycle,
//! and the per-tick transition.

use vstd::prelude::*;

use crate::rng::{random_below, shuffle_tiles};

verus! {

/// Board cell value holding a food pellet.
pub const FOOD_ID: u32 = 1;
/// Smallest player id; board cells at or above this value name a player.
pub const ID_MIN: u32 = 1000000;
/// Width of the range from which player ids are drawn.
pub const ID_DRAW_RANGE: u32 = 8999999;
/// A freshly spawned player starts with this many (stacked) body segments.
pub const PLAYER_STARTING_LENGTH: usize = 5;
/// The food spawn chance is a numerator over this denominator.
pub const CHANCE_DENOM: u32 = 1000;
/// Largest accepted board side, so that cell indices fit comfortably.
pub const MAX_DIM: u32 = 0xFFFF;
/// Bound on the attempts made to place one food pellet on an empty cell.
pub const SPAWN_RETRY_LIMIT: u32 = 1000;

/// An integer grid coordinate.
#[derive(Clone, Copy, PartialEq, Eq, Structural, Debug)]
pub struct Tile {
    pub x: u32,
    pub y: u32,
}

/// Why a player died; a living player carries `NotDead`.
#[derive(Clone, Copy, PartialEq, Eq, Structural, Debug)]
pub enum DeathReason {
    NotDead,
    Eaten,
    Starve,
    Body,
}

/// One snake: id, vital state, pending move and its body, head first.
#[derive(Clone, Debug)]
pub struct Player {
    pub id: u32,
    pub alive: bool,
    pub health: u32,
    pub move_dir: char,
    pub turn: u32,
    pub death_reason: DeathReason,
    pub body: Vec<Tile>,
}

/// Mathematical model of a player.
pub ghost struct PlayerV {
    pub id: u32,
    pub alive: bool,
    pub health: int,
    pub move_dir: char,
    pub turn: u32,
    pub death_reason: DeathReason,
    pub body: Seq<Tile>,
}

impl View for Player {
    type V = PlayerV;

    open spec fn view(&self) -> PlayerV {
        PlayerV {
            id: self.id,
            alive: self.alive,
            health: self.health as int,
            move_dir: self.move_dir,
            turn: self.turn,
            death_reason: self.death_reason,
            body: self.body@,
        }
    }
}

/// One game: board dimensions, configuration, occupancy board, roster, food.
pub struct GameInstance {
    pub board_width: u32,
    pub board_height: u32,
    pub num_players: u32,
    pub food_spawn_chance: u32,
    pub game_id: u32,
    pub over: bool,
    pub turn: u32,
    pub board: Vec<u32>,
    pub players: Vec<Player>,
    pub food: Vec<Tile>,
}

/// Mathematical model of a game.
pub ghost struct GameV {
    pub width: u32,
    pub height: u32,
    pub num_players: u32,
    pub food_chance: u32,
    pub game_id: u32,
    pub over: bool,
    pub turn: u32,
    pub board: Seq<u32>,
    pub players: Seq<PlayerV>,
    pub food: Seq<Tile>,
}

impl View for GameInstance {
    type V = GameV;

    open spec fn view(&self) -> GameV {
        GameV {
            width: self.board_width,
            height: self.board_height,
            num_players: self.num_players,
            food_chance: self.food_spawn_chance,
            game_id: self.game_id,
            over: self.over,
            turn: self.turn,
            board: self.board@,
            players: views_of(self.players@),
            food: self.food@,
        }
    }
}

/// The models of a roster of players.
pub open spec fn views_of(players: Seq<Player>) -> Seq<PlayerV> {
    players.map_values(|p: Player| p@)
}

// ---------------------------------------------------------------------------
// The transition, as spec functions.
// ---------------------------------------------------------------------------

/// Horizontal unit delta of a move character; unknown characters do not move.
pub open spec fn dir_dx(c: char) -> int {
    if c == 'l' {
        -1
    } else if c == 'r' {
        1
    } else {
        0
    }
}

/// Vertical unit delta of a move character ('u' decreases y, 'd' increases y).
pub open spec fn dir_dy(c: char) -> int {
    if c == 'u' {
        -1
    } else if c == 'd' {
        1
    } else {
        0
    }
}

pub open spec fn next_x(p: PlayerV) -> int {
    p.body[0].x + dir_dx(p.move_dir)
}

pub open spec fn next_y(p: PlayerV) -> int {
    p.body[0].y + dir_dy(p.move_dir)
}

/// Whether the cell the head is about to enter lies on the board.
pub open spec fn next_in_bounds(p: PlayerV, w: u32, h: u32) -> bool {
    0 <= next_x(p) < w && 0 <= next_y(p) < h
}

/// The cell the head is about to enter (meaningful only when in bounds).
pub open spec fn next_head(p: PlayerV) -> Tile {
    Tile { x: next_x(p) as u32, y: next_y(p) as u32 }
}

/// Whether some food pellet lies at (x, y).
pub open spec fn food_at(food: Seq<Tile>, x: int, y: int) -> bool {
    exists|k: int| 0 <= k < food.len() && food[k].x == x && food[k].y == y
}

/// Whether the player's pending move lands its head on a food pellet.
pub open spec fn eats(p: PlayerV, food: Seq<Tile>, w: u32, h: u32) -> bool {
    next_in_bounds(p, w, h) && food_at(food, next_x(p), next_y(p))
}

/// A player after its move is applied, before any death is decided:
/// health drops by one (or resets to 100 on eating); the body grows by the
/// new head on eating, advances on a normal move, and loses its tail when
/// the head left the board.
pub open spec fn moved_pv(p: PlayerV, food: Seq<Tile>, w: u32, h: u32) -> PlayerV {
    if !p.alive {
        p
    } else {
        let hlt = if eats(p, food, w, h) {
            100 as int
        } else {
            p.health - 1
        };
        let body = if !next_in_bounds(p, w, h) {
            p.body.drop_last()
        } else if eats(p, food, w, h) {
            seq![next_head(p)] + p.body
        } else {
            seq![next_head(p)] + p.body.drop_last()
        };
        PlayerV { health: hlt, body: body, ..p }
    }
}

/// The head of an alive player left the board this tick.
pub open spec fn wall_marked(p: PlayerV, w: u32, h: u32) -> bool {
    p.alive && !next_in_bounds(p, w, h)
}

/// An alive player's health reached 0 this tick without eating.
pub open spec fn starve_marked(p: PlayerV, food: Seq<Tile>, w: u32, h: u32) -> bool {
    p.alive && moved_pv(p, food, w, h).health == 0
}

/// Whether the player's body covers the tile at all.
pub open spec fn covers(p: PlayerV, t: Tile) -> bool {
    exists|j: int| 0 <= j < p.body.len() && p.body[j] == t
}

/// Whether a non-head segment of the player's body covers the tile.
pub open spec fn tail_covers(p: PlayerV, t: Tile) -> bool {
    exists|j: int| 1 <= j < p.body.len() && p.body[j] == t
}

/// Head-to-head: after the moves, another player that entered the tick alive
/// shares player i's head cell with a body at least as long.
pub open spec fn h2h_dead(ps: Seq<PlayerV>, i: int, food: Seq<Tile>, w: u32, h: u32) -> bool {
    exists|j: int|
        0 <= j < ps.len() && j != i && ps[j].alive && moved_pv(ps[j], food, w, h).body[0]
            == moved_pv(ps[i], food, w, h).body[0] && moved_pv(ps[j], food, w, h).body.len()
            >= moved_pv(ps[i], food, w, h).body.len()
}

/// Head-into-body: after the moves, player i's head lies on a non-head
/// segment of some player (possibly itself) that entered the tick alive.
pub open spec fn body_dead(ps: Seq<PlayerV>, i: int, food: Seq<Tile>, w: u32, h: u32) -> bool {
    exists|q: int|
        0 <= q < ps.len() && ps[q].alive && tail_covers(
            moved_pv(ps[q], food, w, h),
            moved_pv(ps[i], food, w, h).body[0],
        )
}

/// Whether player i, alive at the start of the tick, dies during it.
pub open spec fn killed(ps: Seq<PlayerV>, i: int, food: Seq<Tile>, w: u32, h: u32) -> bool {
    ps[i].alive && (wall_marked(ps[i], w, h) || starve_marked(ps[i], food, w, h) || h2h_dead(
        ps,
        i,
        food,
        w,
        h,
    ) || body_dead(ps, i, food, w, h))
}

/// The reason recorded for player i this tick; a body collision outranks
/// being eaten, which outranks starving, which outranks the wall.
pub open spec fn reason_after(ps: Seq<PlayerV>, i: int, food: Seq<Tile>, w: u32, h: u32) -> DeathReason {
    if body_dead(ps, i, food, w, h) {
        DeathReason::Body
    } else if h2h_dead(ps, i, food, w, h) {
        DeathReason::Eaten
    } else if starve_marked(ps[i], food, w, h) {
        DeathReason::Starve
    } else if wall_marked(ps[i], w, h) {
        DeathReason::Body
    } else {
        ps[i].death_reason
    }
}

/// Player i at the end of the tick: a dead player is untouched; a live one
/// has moved and carries its new alive flag and death reason.
pub open spec fn stepped_pv(ps: Seq<PlayerV>, i: int, food: Seq<Tile>, w: u32, h: u32) -> PlayerV {
    if !ps[i].alive {
        ps[i]
    } else {
        PlayerV {
            alive: !killed(ps, i, food, w, h),
            death_reason: reason_after(ps, i, food, w, h),
            ..moved_pv(ps[i], food, w, h)
        }
    }
}

/// The whole roster at the end of the tick.
pub open spec fn stepped_roster(ps: Seq<PlayerV>, food: Seq<Tile>, w: u32, h: u32) -> Seq<PlayerV> {
    Seq::new(ps.len(), |i: int| stepped_pv(ps, i, food, w, h))
}

/// Some player that entered the tick alive moves its head onto this tile.
pub open spec fn head_lands_on(ps: Seq<PlayerV>, w: u32, h: u32, t: Tile) -> bool {
    exists|i: int|
        0 <= i < ps.len() && ps[i].alive && next_in_bounds(ps[i], w, h) && next_head(ps[i]) == t
}

/// The first k food pellets, minus every pellet some head lands on.
pub open spec fn food_kept(ps: Seq<PlayerV>, food: Seq<Tile>, w: u32, h: u32, k: int) -> Seq<Tile>
    decreases k,
{
    if k <= 0 {
        Seq::empty()
    } else {
        let rest = food_kept(ps, food, w, h, k - 1);
        if head_lands_on(ps, w, h, food[k - 1]) {
            rest
        } else {
            rest.push(food[k - 1])
        }
    }
}

/// The food set after this tick's eating, before any new pellet spawns.
pub open spec fn food_after_eat(ps: Seq<PlayerV>, food: Seq<Tile>, w: u32, h: u32) -> Seq<Tile> {
    food_kept(ps, food, w, h, food.len() as int)
}

/// Count of players whose alive flag is set.
pub open spec fn alive_count(ps: Seq<PlayerV>) -> int
    decreases ps.len(),
{
    if ps.len() == 0 {
        0
    } else {
        alive_count(ps.drop_last()) + if ps.last().alive {
            1 as int
        } else {
            0 as int
        }
    }
}

/// The game ends when one player or fewer is left (multi-player), or when
/// the lone player is gone (single-player).
pub open spec fn over_cond(alive: int, num_players: u32) -> bool {
    (alive <= 1 && num_players > 1) || (alive == 0 && num_players == 1)
}

// ---------------------------------------------------------------------------
// Well-formedness.
// ---------------------------------------------------------------------------

pub open spec fn tile_in_bounds(t: Tile, w: u32, h: u32) -> bool {
    t.x < w && t.y < h
}

/// Flat index of a tile in the row-major occupancy board.
pub open spec fn idx_of(t: Tile, w: u32) -> int {
    t.y * w + t.x
}

/// Per-player sanity: ids are in the player range, health is a percentage,
/// bodies never shrink below two segments, and a live player has at least
/// three in-bounds segments, positive health and no death reason.
pub open spec fn roster_ok(ps: Seq<PlayerV>, w: u32, h: u32) -> bool {
    (forall|i: int|
        0 <= i < ps.len() ==> {
            let p = #[trigger] ps[i];
            &&& p.id >= ID_MIN
            &&& 0 <= p.health <= 100
            &&& p.body.len() >= 2
            &&& (p.alive ==> p.body.len() >= 3 && p.health >= 1 && p.death_reason
                == DeathReason::NotDead)
            &&& (p.alive ==> forall|j: int|
                0 <= j < p.body.len() ==> tile_in_bounds(#[trigger] p.body[j], w, h))
        }) && (forall|i: int, j: int|
        0 <= i < ps.len() && 0 <= j < ps.len() && i != j ==> #[trigger] ps[i].id != #[trigger] ps[j].id)
}

/// No tile of q's body is shared with p's body.
pub open spec fn bodies_disjoint(p: PlayerV, q: PlayerV) -> bool {
    forall|j: int| 0 <= j < q.body.len() ==> !covers(p, #[trigger] q.body[j])
}

/// Distinct live players never overlap.
pub open spec fn players_disjoint(ps: Seq<PlayerV>) -> bool {
    forall|i: int, j: int|
        0 <= i < ps.len() && 0 <= j < ps.len() && i != j && ps[i].alive && ps[j].alive
            ==> bodies_disjoint(#[trigger] ps[i], #[trigger] ps[j])
}

/// Food pellets lie on the board, at pairwise distinct cells, never under a
/// live player.
pub open spec fn food_ok(ps: Seq<PlayerV>, food: Seq<Tile>, w: u32, h: u32) -> bool {
    (forall|k: int| 0 <= k < food.len() ==> tile_in_bounds(#[trigger] food[k], w, h)) && (forall|
        k: int,
        l: int,
    |
        0 <= k < food.len() && 0 <= l < food.len() && k != l ==> #[trigger] food[k]
            != #[trigger] food[l]) && (forall|k: int, i: int|
        0 <= k < food.len() && 0 <= i < ps.len() && ps[i].alive ==> !covers(
            #[trigger] ps[i],
            #[trigger] food[k],
        ))
}

/// Player ids stay in the player range and live bodies stay on the board.
pub open spec fn cells_ok(ps: Seq<PlayerV>, w: u32, h: u32) -> bool {
    forall|a: int|
        0 <= a < ps.len() ==> (#[trigger] ps[a].id) >= ID_MIN && (ps[a].alive ==> forall|b: int|
            0 <= b < ps[a].body.len() ==> tile_in_bounds(#[trigger] ps[a].body[b], w, h))
}

/// The occupancy board mirrors the roster and the food set exactly: live
/// bodies and pellets are painted at their cells, and every non-zero cell
/// comes from one of them.
pub open spec fn board_matches(
    board: Seq<u32>,
    ps: Seq<PlayerV>,
    food: Seq<Tile>,
    w: u32,
    h: u32,
) -> bool {
    &&& board.len() == w * h
    &&& forall|i: int, j: int|
        0 <= i < ps.len() && ps[i].alive && 0 <= j < ps[i].body.len()
            ==> #[trigger] board[idx_of(ps[i].body[j], w)] == ps[i].id
    &&& forall|k: int| 0 <= k < food.len() ==> #[trigger] board[idx_of(food[k], w)] == FOOD_ID
    &&& forall|x: int, y: int|
        0 <= x < w && 0 <= y < h && #[trigger] board[y * w + x] != 0 ==> food_at(food, x, y)
            || exists|i: int|
            0 <= i < ps.len() && ps[i].alive && covers(
                #[trigger] ps[i],
                Tile { x: x as u32, y: y as u32 },
            )
}

pub open spec fn board_ok(g: GameV) -> bool {
    board_matches(g.board, g.players, g.food, g.width, g.height)
}

/// The game invariant, re-established by every public operation.
pub open spec fn wf(g: GameV) -> bool {
    &&& 1 <= g.num_players <= 8
    &&& g.players.len() == g.num_players
    &&& 10 <= g.width <= MAX_DIM
    &&& 10 <= g.height <= MAX_DIM
    &&& g.food_chance <= CHANCE_DENOM
    &&& roster_ok(g.players, g.width, g.height)
    &&& players_disjoint(g.players)
    &&& food_ok(g.players, g.food, g.width, g.height)
    &&& board_ok(g)
    &&& g.over == over_cond(alive_count(g.players), g.num_players)
}

} // verus!

verus! {

// ---------------------------------------------------------------------------
// Small executable helpers.
// ---------------------------------------------------------------------------

/// Flat index of an in-bounds tile in the row-major board.
fn cell_index(w: u32, h: u32, t: Tile) -> (r: usize)
    requires
        tile_in_bounds(t, w, h),
        w <= MAX_DIM,
        h <= MAX_DIM,
    ensures
        r == idx_of(t, w),
        r < w * h,
{
    proof {
        assert((t.y as int) * (w as int) + (t.x as int) < (w as int) * (h as int) && (t.y as int) * (
        w as int) <= 0xFFFF_0000) by (nonlinear_arith)
            requires
                t.x < w,
                t.y < h,
                w <= 0xFFFF,
                h <= 0xFFFF,
        ;
    }
    (t.y as usize) * (w as usize) + (t.x as usize)
}

/// Whether some food pellet lies at (x, y).
fn food_contains(food: &Vec<Tile>, x: u32, y: u32) -> (r: bool)
    ensures
        r == food_at(food@, x as int, y as int),
{
    let mut k: usize = 0;
    while k < food.len()
        invariant
            0 <= k <= food@.len(),
            forall|m: int| 0 <= m < k ==> !(#[trigger] food@[m].x == x && food@[m].y == y),
        decreases food@.len() - k,
    {
        if food[k].x == x && food[k].y == y {
            return true;
        }
        k += 1;
    }
    false
}

/// alive_count only reads the alive flags.
proof fn lemma_alive_count_congruent(a: Seq<PlayerV>, b: Seq<PlayerV>)
    requires
        a.len() == b.len(),
        forall|i: int| 0 <= i < a.len() ==> a[i].alive == b[i].alive,
    ensures
        alive_count(a) == alive_count(b),
    decreases a.len(),
{
    if a.len() > 0 {
        lemma_alive_count_congruent(a.drop_last(), b.drop_last());
    }
}

impl Player {
    /// A fresh, living player with full health, no body yet, facing up.
    pub fn new(id: u32) -> (p: Player)
        ensures
            p@ == (PlayerV {
                id: id,
                alive: true,
                health: 100,
                move_dir: 'u',
                turn: 0,
                death_reason: DeathReason::NotDead,
                body: Seq::empty(),
            }),
    {
        Player {
            id: id,
            alive: true,
            health: 100,
            move_dir: 'u',
            turn: 0,
            death_reason: DeathReason::NotDead,
            body: Vec::new(),
        }
    }
}

impl GameInstance {
    pub fn is_over(&self) -> (r: bool)
        ensures
            r == self@.over,
    {
        self.over
    }

    pub fn get_turn(&self) -> (r: u32)
        ensures
            r == self@.turn,
    {
        self.turn
    }

    pub fn get_game_id(&self) -> (r: u32)
        ensures
            r == self@.game_id,
    {
        self.game_id
    }

    pub fn get_parameters(&self) -> (r: (u32, u32, u32, u32))
        ensures
            r == (self@.width, self@.height, self@.num_players, self@.food_chance),
    {
        (self.board_width, self.board_height, self.num_players, self.food_spawn_chance)
    }

    pub fn get_state(&self) -> (r: (&Vec<u32>, &Vec<Player>, &Vec<Tile>, u32, u32))
        ensures
            r.0@ == self@.board,
            r.1@.map_values(|p: Player| p@) == self@.players,
            r.2@ == self@.food,
            r.3 == self@.width,
            r.4 == self@.height,
    {
        (&self.board, &self.players, &self.food, self.board_width, self.board_height)
    }

    pub fn get_tile_id(&self, x: u32, y: u32) -> (r: u32)
        requires
            wf(self@),
            x < self@.width,
            y < self@.height,
        ensures
            r == self@.board[y * self@.width + x],
    {
        let k = cell_index(self.board_width, self.board_height, Tile { x: x, y: y });
        self.board[k]
    }

    pub fn get_tile_id_from_tile(&self, t: Tile) -> (r: u32)
        requires
            wf(self@),
            tile_in_bounds(t, self@.width, self@.height),
        ensures
            r == self@.board[idx_of(t, self@.width)],
    {
        let k = cell_index(self.board_width, self.board_height, t);
        self.board[k]
    }

    pub fn get_player_ids(&self) -> (r: Vec<u32>)
        ensures
            r@.len() == self@.players.len(),
            forall|i: int| 0 <= i < r@.len() ==> r@[i] == self@.players[i].id,
    {
        let mut ids: Vec<u32> = Vec::new();
        let mut i: usize = 0;
        while i < self.players.len()
            invariant
                0 <= i <= self.players@.len(),
                ids@.len() == i,
                forall|m: int| 0 <= m < i ==> ids@[m] == self@.players[m].id,
            decreases self.players@.len() - i,
        {
            ids.push(self.players[i].id);
            i += 1;
        }
        ids
    }

    pub fn get_player_id(&self, num: usize) -> (r: Option<u32>)
        ensures
            num < self@.players.len() ==> r == Some(self@.players[num as int].id),
            num >= self@.players.len() ==> r.is_none(),
    {
        if num < self.players.len() {
            Some(self.players[num].id)
        } else {
            None
        }
    }

    /// Record the pending move of the player with the given id; reports
    /// whether such a player exists. Everything else is untouched.
    pub fn set_player_move(&mut self, id: u32, m: char) -> (r: bool)
        requires
            wf(old(self)@),
        ensures
            wf(final(self)@),
            r == exists|i: int|
                0 <= i < old(self)@.players.len() && #[trigger] old(self)@.players[i].id == id,
            final(self)@.players.len() == old(self)@.players.len(),
            forall|i: int|
                0 <= i < old(self)@.players.len() && old(self)@.players[i].id != id
                    ==> #[trigger] final(self)@.players[i] == old(self)@.players[i],
            forall|i: int|
                0 <= i < old(self)@.players.len() && old(self)@.players[i].id == id
                    ==> #[trigger] final(self)@.players[i] == (PlayerV {
                    move_dir: m,
                    ..old(self)@.players[i]
                }),
            final(self)@.width == old(self)@.width,
            final(self)@.height == old(self)@.height,
            final(self)@.num_players == old(self)@.num_players,
            final(self)@.food_chance == old(self)@.food_chance,
            final(self)@.game_id == old(self)@.game_id,
            final(self)@.over == old(self)@.over,
            final(self)@.turn == old(self)@.turn,
            final(self)@.board == old(self)@.board,
            final(self)@.food == old(self)@.food,
    {
        let ghost g0 = self@;
        let mut i: usize = 0;
        let mut found: bool = false;
        while i < self.players.len()
            invariant
                0 <= i <= g0.players.len(),
                self.players@.len() == g0.players.len(),
                self.board_width == g0.width,
                self.board_height == g0.height,
                self.num_players == g0.num_players,
                self.food_spawn_chance == g0.food_chance,
                self.game_id == g0.game_id,
                self.over == g0.over,
                self.turn == g0.turn,
                self.board@ == g0.board,
                self.food@ == g0.food,
                found == exists|k: int| 0 <= k < i && #[trigger] g0.players[k].id == id,
                forall|k: int|
                    0 <= k < g0.players.len() && g0.players[k].id != id
                        ==> #[trigger] self.players@[k]@ == g0.players[k],
                forall|k: int|
                    0 <= k < g0.players.len() && g0.players[k].id == id && k >= i
                        ==> #[trigger] self.players@[k]@ == g0.players[k],
                forall|k: int|
                    0 <= k < i && g0.players[k].id == id ==> #[trigger] self.players@[k]@
                        == (PlayerV { move_dir: m, ..g0.players[k] }),
            decreases g0.players.len() - i,
        {
            proof {
                assert(self.players@[i as int]@ == g0.players[i as int] || self.players@[i as int]@
                    == (PlayerV { move_dir: m, ..g0.players[i as int] }));
                assert(self.players@[i as int]@.id == g0.players[i as int].id);
            }
            if self.players[i].id == id {
                self.players[i].move_dir = m;
                found = true;
                proof {
                    assert(g0.players[i as int].id == id);
                    assert(self.players@[i as int]@ == (PlayerV {
                        move_dir: m,
                        ..g0.players[i as int]
                    }));
                }
            } else {
                proof {
                    assert(g0.players[i as int].id != id);
                }
            }
            i += 1;
        }
        proof {
            let ps1 = self@.players;
            assert(ps1.len() == g0.players.len());
            assert forall|k: int| 0 <= k < ps1.len() implies #[trigger] ps1[k]
                == if g0.players[k].id == id {
                (PlayerV { move_dir: m, ..g0.players[k] })
            } else {
                g0.players[k]
            } by {
                assert(ps1[k] == self.players@[k]@);
            }
            lemma_alive_count_congruent(ps1, g0.players);
            assert(board_ok(self@)) by {
                assert forall|ii: int, j: int|
                    0 <= ii < ps1.len() && ps1[ii].alive && 0 <= j < ps1[ii].body.len()
                        implies #[trigger] self@.board[idx_of(ps1[ii].body[j], self@.width)]
                    == ps1[ii].id by {
                    assert(ps1[ii].body == g0.players[ii].body);
                    assert(g0.board[idx_of(g0.players[ii].body[j], g0.width)]
                        == g0.players[ii].id);
                }
                assert forall|x: int, y: int|
                    0 <= x < self@.width && 0 <= y < self@.height && #[trigger] self@.board[y
                        * self@.width + x] != 0 implies food_at(self@.food, x, y) || exists|ii: int|
                    0 <= ii < ps1.len() && ps1[ii].alive && covers(
                        #[trigger] ps1[ii],
                        Tile { x: x as u32, y: y as u32 },
                    ) by {
                    if !food_at(g0.food, x, y) {
                        assert(g0.board[y * g0.width + x] != 0);
                        let t = Tile { x: x as u32, y: y as u32 };
                        assert(exists|ii: int|
                            0 <= ii < g0.players.len() && g0.players[ii].alive && covers(
                                #[trigger] g0.players[ii],
                                t,
                            ));
                        let ii = choose|ii: int|
                            0 <= ii < g0.players.len() && g0.players[ii].alive && covers(
                                #[trigger] g0.players[ii],
                                t,
                            );
                        assert(ps1[ii].body == g0.players[ii].body);
                        let j = choose|j: int|
                            0 <= j < g0.players[ii].body.len() && g0.players[ii].body[j] == t;
                        assert(ps1[ii].body[j] == t);
                        assert(ps1[ii].alive && covers(ps1[ii], t));
                    }
                }
            }
            assert(players_disjoint(ps1)) by {
                assert forall|ii: int, j: int|
                    0 <= ii < ps1.len() && 0 <= j < ps1.len() && ii != j && ps1[ii].alive
                        && ps1[j].alive implies bodies_disjoint(
                    #[trigger] ps1[ii],
                    #[trigger] ps1[j],
                ) by {
                    assert(bodies_disjoint(g0.players[ii], g0.players[j]));
                    assert forall|jj: int| 0 <= jj < ps1[j].body.len() implies !covers(
                        ps1[ii],
                        #[trigger] ps1[j].body[jj],
                    ) by {
                        assert(!covers(g0.players[ii], g0.players[j].body[jj]));
                    }
                }
            }
            assert(food_ok(ps1, self@.food, self@.width, self@.height)) by {
                assert forall|k: int, ii: int|
                    0 <= k < self@.food.len() && 0 <= ii < ps1.len() && ps1[ii].alive
                        implies !covers(#[trigger] ps1[ii], #[trigger] self@.food[k]) by {
                    assert(!covers(g0.players[ii], g0.food[k]));
                }
            }
        }
        found
    }
}

} // verus!

verus! {

// ---------------------------------------------------------------------------
// Board construction.
// ---------------------------------------------------------------------------

/// Two in-bounds tiles with the same flat index are the same tile.
proof fn lemma_idx_injective(w: u32, h: u32, a: Tile, b: Tile)
    requires
        tile_in_bounds(a, w, h),
        tile_in_bounds(b, w, h),
        idx_of(a, w) == idx_of(b, w),
    ensures
        a == b,
{
    assert((a.y as int) * (w as int) + (a.x as int) == (b.y as int) * (w as int) + (b.x as int)
        && a.x < w && b.x < w ==> a.x == b.x && a.y == b.y) by (nonlinear_arith);
}

/// A flat index of an in-bounds tile lies within the board.
proof fn lemma_idx_in_range(w: u32, h: u32, t: Tile)
    requires
        tile_in_bounds(t, w, h),
    ensures
        0 <= idx_of(t, w) < w * h,
{
    assert((t.y as int) * (w as int) + (t.x as int) < (w as int) * (h as int)) by (nonlinear_arith)
        requires
            t.x < w,
            t.y < h,
    ;
}

/// Paint a fresh occupancy board from the live bodies and the food set.
#[verifier::loop_isolation(false)]
fn build_board(players: &Vec<Player>, food: &Vec<Tile>, w: u32, h: u32) -> (board: Vec<u32>)
    requires
        10 <= w <= MAX_DIM,
        10 <= h <= MAX_DIM,
        cells_ok(views_of(players@), w, h),
        players_disjoint(views_of(players@)),
        food_ok(views_of(players@), food@, w, h),
    ensures
        board_matches(board@, views_of(players@), food@, w, h),
{
    let ghost ps = views_of(players@);
    proof {
        assert(cells_ok(ps, w, h));
        assert(players_disjoint(ps));
        assert(food_ok(ps, food@, w, h));
        assert forall|a: int| 0 <= a < ps.len() implies #[trigger] ps[a] == players@[a]@ by {}
        assert((w as int) * (h as int) <= 0xFFFF_0000int) by (nonlinear_arith)
            requires
                w <= 0xFFFF,
                h <= 0xFFFF,
        ;
    }
    let total: usize = (w as usize) * (h as usize);
    let mut board: Vec<u32> = Vec::new();
    while board.len() < total
        invariant
            board@.len() <= total,
            forall|c: int| 0 <= c < board@.len() ==> #[trigger] board@[c] == 0,
        decreases total - board@.len(),
    {
        board.push(0);
    }
    // Paint every live body, cell by cell.
    let mut i: usize = 0;
    while i < players.len()
        invariant
            0 <= i <= ps.len(),
            board@.len() == total,
            forall|a: int, b: int|
                0 <= a < i && ps[a].alive && 0 <= b < ps[a].body.len()
                    ==> #[trigger] board@[idx_of(ps[a].body[b], w)] == ps[a].id,
            forall|c: int|
                0 <= c < board@.len() && #[trigger] board@[c] != 0 ==> exists|a: int, b: int|
                    0 <= a < i && ps[a].alive && 0 <= b < ps[a].body.len() && idx_of(
                        ps[a].body[b],
                        w,
                    ) == c,
        decreases ps.len() - i,
    {
        if players[i].alive {
            let mut j: usize = 0;
            let pid = players[i].id;
            while j < players[i].body.len()
                invariant
                    0 <= j <= ps[i as int].body.len(),
                    board@.len() == total,
                    forall|a: int, b: int|
                        0 <= a < i && ps[a].alive && 0 <= b < ps[a].body.len()
                            ==> #[trigger] board@[idx_of(ps[a].body[b], w)] == ps[a].id,
                    forall|b: int|
                        0 <= b < j ==> #[trigger] board@[idx_of(ps[i as int].body[b], w)]
                            == ps[i as int].id,
                    forall|c: int|
                        0 <= c < board@.len() && #[trigger] board@[c] != 0 ==> exists|a: int, b: int|
                            0 <= a < ps.len() && ps[a].alive && 0 <= b < ps[a].body.len() && idx_of(
                                ps[a].body[b],
                                w,
                            ) == c && (a < i || (a == i && b < j)),
                decreases ps[i as int].body.len() - j,
            {
                let t = players[i].body[j];
                proof {
                    assert(ps[i as int] == players@[i as int]@);
                    assert(ps[i as int].id >= ID_MIN);
                    assert(ps[i as int].alive);
                    assert(t == ps[i as int].body[j as int]);
                    assert(tile_in_bounds(t, w, h));
                }
                let c = cell_index(w, h, t);
                proof {
                    lemma_idx_in_range(w, h, t);
                }
                board[c] = pid;
                proof {
                    // Earlier painted cells keep their value: an overlapping
                    // cell of another live player would contradict
                    // disjointness, via index injectivity.
                    assert forall|a: int, b: int|
                        0 <= a < i && ps[a].alive && 0 <= b < ps[a].body.len()
                            implies #[trigger] board@[idx_of(ps[a].body[b], w)] == ps[a].id by {
                        assert(ps[a].id >= ID_MIN);
                        lemma_idx_in_range(w, h, ps[a].body[b]);
                        if idx_of(ps[a].body[b], w) == c as int {
                            lemma_idx_injective(w, h, ps[a].body[b], t);
                            assert(covers(ps[a], t));
                            assert(bodies_disjoint(ps[a], ps[i as int]));
                            assert(ps[i as int].body[j as int] == t);
                            assert(false);
                        }
                    }
                    assert forall|b: int|
                        0 <= b < j + 1 implies #[trigger] board@[idx_of(ps[i as int].body[b], w)]
                        == ps[i as int].id by {
                        assert(ps[i as int].id >= ID_MIN);
                        lemma_idx_in_range(w, h, ps[i as int].body[b]);
                        if b == j as int {
                            assert(ps[i as int].body[b] == t);
                        }
                    }
                }
                j += 1;
            }
        }
        i += 1;
    }
    // Paint the food pellets.
    let mut k: usize = 0;
    while k < food.len()
        invariant
            0 <= k <= food@.len(),
            board@.len() == total,
            forall|a: int, b: int|
                0 <= a < ps.len() && ps[a].alive && 0 <= b < ps[a].body.len()
                    ==> #[trigger] board@[idx_of(ps[a].body[b], w)] == ps[a].id,
            forall|m: int|
                0 <= m < k ==> #[trigger] board@[idx_of(food@[m], w)] == FOOD_ID,
            forall|c: int|
                0 <= c < board@.len() && #[trigger] board@[c] != 0 ==> (exists|a: int, b: int|
                    0 <= a < ps.len() && ps[a].alive && 0 <= b < ps[a].body.len() && idx_of(
                        ps[a].body[b],
                        w,
                    ) == c) || (exists|m: int| 0 <= m < k && idx_of(#[trigger] food@[m], w) == c),
        decreases food@.len() - k,
    {
        let t = food[k];
        let c = cell_index(w, h, t);
        proof {
            lemma_idx_in_range(w, h, t);
        }
        board[c] = FOOD_ID;
        proof {
            assert forall|a: int, b: int|
                0 <= a < ps.len() && ps[a].alive && 0 <= b < ps[a].body.len()
                    implies #[trigger] board@[idx_of(ps[a].body[b], w)] == ps[a].id by {
                assert(ps[a].id >= ID_MIN);
                lemma_idx_in_range(w, h, ps[a].body[b]);
                if idx_of(ps[a].body[b], w) == c as int {
                    lemma_idx_injective(w, h, ps[a].body[b], t);
                    assert(covers(ps[a], t));
                    assert(false);
                }
            }
            assert forall|m: int|
                0 <= m < k + 1 implies #[trigger] board@[idx_of(food@[m], w)] == FOOD_ID by {
                lemma_idx_in_range(w, h, food@[m]);
                if m == k as int {
                    assert(food@[m] == t);
                }
            }
        }
        k += 1;
    }
    proof {
        assert forall|x: int, y: int|
            0 <= x < w && 0 <= y < h && #[trigger] board@[y * w + x] != 0 implies food_at(food@, x, y)
            || exists|i2: int|
            0 <= i2 < ps.len() && ps[i2].alive && covers(
                #[trigger] ps[i2],
                Tile { x: x as u32, y: y as u32 },
            ) by {
            let t0 = Tile { x: x as u32, y: y as u32 };
            assert(tile_in_bounds(t0, w, h));
            assert(idx_of(t0, w) == y * w + x);
            lemma_idx_in_range(w, h, t0);
            if exists|a: int, b: int|
                0 <= a < ps.len() && ps[a].alive && 0 <= b < ps[a].body.len() && idx_of(
                    ps[a].body[b],
                    w,
                ) == y * w + x {
                let (a, b) = choose|a: int, b: int|
                    0 <= a < ps.len() && ps[a].alive && 0 <= b < ps[a].body.len() && idx_of(
                        ps[a].body[b],
                        w,
                    ) == y * w + x;
                assert(ps[a].id >= ID_MIN);
                lemma_idx_injective(w, h, ps[a].body[b], t0);
                assert(covers(ps[a], t0));
            } else {
                let m = choose|m: int| 0 <= m < food@.len() && idx_of(#[trigger] food@[m], w) == y
                    * w + x;
                lemma_idx_injective(w, h, food@[m], t0);
                assert(food@[m].x == x && food@[m].y == y);
            }
        }
        assert(board_matches(board@, ps, food@, w, h));
    }
    board
}

} // verus!

verus! {

/// The eight fixed spawn points players are dealt onto.
pub open spec fn spawn_tiles() -> Seq<Tile> {
    seq![
        Tile { x: 1, y: 1 },
        Tile { x: 5, y: 1 },
        Tile { x: 9, y: 1 },
        Tile { x: 1, y: 5 },
        Tile { x: 9, y: 5 },
        Tile { x: 1, y: 9 },
        Tile { x: 5, y: 9 },
        Tile { x: 9, y: 9 },
    ]
}

/// Find some empty board cell, scanning every cell in order.
#[verifier::loop_isolation(false)]
fn find_empty_cell(board: &Vec<u32>, w: u32, h: u32) -> (r: Option<Tile>)
    requires
        board@.len() == w * h,
        10 <= w <= MAX_DIM,
        10 <= h <= MAX_DIM,
    ensures
        (match r {
            Some(t) => tile_in_bounds(t, w, h) && board@[idx_of(t, w)] == 0,
            None => forall|x: int, y: int|
                0 <= x < w && 0 <= y < h ==> #[trigger] board@[y * w + x] != 0,
        }),
{
    let mut x: u32 = 0;
    while x < w
        invariant
            0 <= x <= w,
            forall|x2: int, y2: int|
                0 <= x2 < x && 0 <= y2 < h ==> #[trigger] board@[y2 * w + x2] != 0,
        decreases w - x,
    {
        let mut y: u32 = 0;
        while y < h
            invariant
                0 <= y <= h,
                x < w,
                forall|y2: int| 0 <= y2 < y ==> #[trigger] board@[y2 * w + x as int] != 0,
            decreases h - y,
        {
            let t = Tile { x: x, y: y };
            let c = cell_index(w, h, t);
            if board[c] == 0 {
                return Some(t);
            }
            proof {
                assert(board@[y as int * w + x as int] != 0);
            }
            y += 1;
        }
        x += 1;
    }
    None
}

/// A roster in which every player is alive has as many alive players as
/// members.
proof fn lemma_alive_count_all(ps: Seq<PlayerV>)
    requires
        forall|i: int| 0 <= i < ps.len() ==> (#[trigger] ps[i]).alive,
    ensures
        alive_count(ps) == ps.len(),
    decreases ps.len(),
{
    if ps.len() > 0 {
        lemma_alive_count_all(ps.drop_last());
    }
}

/// Whether some player in the roster already carries this id.
fn id_taken(players: &Vec<Player>, id: u32) -> (r: bool)
    ensures
        r == exists|k: int| 0 <= k < players@.len() && (#[trigger] players@[k]@.id) == id,
{
    let mut k: usize = 0;
    while k < players.len()
        invariant
            0 <= k <= players@.len(),
            forall|m: int| 0 <= m < k ==> (#[trigger] players@[m]@.id) != id,
        decreases players@.len() - k,
    {
        if players[k].id == id {
            proof {
                assert(players@[k as int]@.id == id);
            }
            return true;
        }
        proof {
            assert(players@[k as int]@.id != id);
        }
        k += 1;
    }
    false
}

/// The largest id in a non-empty roster.
fn max_id(players: &Vec<Player>) -> (r: u32)
    requires
        players@.len() > 0,
    ensures
        forall|k: int| 0 <= k < players@.len() ==> (#[trigger] players@[k]@.id) <= r,
        exists|k: int| 0 <= k < players@.len() && (#[trigger] players@[k]@.id) == r,
{
    let mut r = players[0].id;
    proof {
        assert(players@[0]@.id == r);
    }
    let mut k: usize = 1;
    while k < players.len()
        invariant
            1 <= k <= players@.len(),
            forall|m: int| 0 <= m < k ==> (#[trigger] players@[m]@.id) <= r,
            exists|m: int| 0 <= m < k && (#[trigger] players@[m]@.id) == r,
        decreases players@.len() - k,
    {
        if players[k].id > r {
            r = players[k].id;
        }
        proof {
            assert(players@[k as int]@.id <= r);
        }
        k += 1;
    }
    r
}

/// A body of n copies of one tile: a freshly spawned snake stands stacked.
fn stacked_body(t: Tile, n: usize) -> (b: Vec<Tile>)
    ensures
        b@.len() == n,
        forall|j: int| 0 <= j < n ==> #[trigger] b@[j] == t,
{
    let mut b: Vec<Tile> = Vec::new();
    let mut k: usize = 0;
    while k < n
        invariant
            0 <= k <= n,
            b@.len() == k,
            forall|j: int| 0 <= j < k ==> #[trigger] b@[j] == t,
        decreases n - k,
    {
        b.push(t);
        k += 1;
    }
    b
}

impl GameInstance {
    /// A fresh game: up to eight players placed on shuffled fixed spawn
    /// points with stacked starting bodies and unique random ids, and up to
    /// one food pellet per player placed on random empty cells (each with a
    /// bounded number of attempts).
    #[verifier::loop_isolation(false)]
    pub fn new(board_width: u32, board_height: u32, num_players: u32, food_spawn_chance: u32) -> (g:
        GameInstance)
        requires
            1 <= num_players <= 8,
            10 <= board_width <= MAX_DIM,
            10 <= board_height <= MAX_DIM,
            food_spawn_chance <= CHANCE_DENOM,
        ensures
            wf(g@),
            g@.width == board_width,
            g@.height == board_height,
            g@.num_players == num_players,
            g@.food_chance == food_spawn_chance,
            g@.turn == 0,
            !g@.over,
            g@.players.len() == num_players,
            forall|i: int|
                0 <= i < g@.players.len() ==> {
                    let p = #[trigger] g@.players[i];
                    p.alive && p.health == 100 && p.move_dir == 'u' && p.death_reason
                        == DeathReason::NotDead && p.body.len() == PLAYER_STARTING_LENGTH && (forall|
                        j: int,
                    |
                        0 <= j < p.body.len() ==> #[trigger] p.body[j] == p.body[0])
                },
            forall|i: int|
                0 <= i < g@.players.len() ==> spawn_tiles().contains(
                    #[trigger] g@.players[i].body[0],
                ),
            forall|i: int, j: int|
                0 <= i < g@.players.len() && 0 <= j < g@.players.len() && i != j
                    ==> #[trigger] g@.players[i].body[0] != #[trigger] g@.players[j].body[0],
            forall|i: int|
                0 <= i < g@.players.len() ==> (#[trigger] g@.players[i].id) < ID_MIN + ID_DRAW_RANGE
                    + 8,
            g@.food.len() <= num_players,
            g@.food.len() == num_players || board_full(g@.players, g@.food, board_width, board_height),
    {
        let w = board_width;
        let h = board_height;
        // The eight fixed spawn points, dealt out in shuffled order.
        let mut spawns: Vec<Tile> = Vec::new();
        spawns.push(Tile { x: 1, y: 1 });
        spawns.push(Tile { x: 5, y: 1 });
        spawns.push(Tile { x: 9, y: 1 });
        spawns.push(Tile { x: 1, y: 5 });
        spawns.push(Tile { x: 9, y: 5 });
        spawns.push(Tile { x: 1, y: 9 });
        spawns.push(Tile { x: 5, y: 9 });
        spawns.push(Tile { x: 9, y: 9 });
        proof {
            assert(spawns@ =~= spawn_tiles());
            assert(spawns@.no_duplicates());
            spawns@.lemma_multiset_has_no_duplicates();
        }
        let ghost orig = spawns@;
        shuffle_tiles(&mut spawns);
        proof {
            orig.to_multiset_ensures();
            spawns@.to_multiset_ensures();
            spawns@.lemma_multiset_has_no_duplicates_conv();
            assert forall|k: int|
                0 <= k < spawns@.len() implies (#[trigger] spawns@[k]).x <= 9 && spawns@[k].y <= 9
                && orig.contains(spawns@[k]) by {
                assert(spawns@.contains(spawns@[k]));
                assert(spawns@.to_multiset().count(spawns@[k]) > 0);
                assert(orig.to_multiset().count(spawns@[k]) > 0);
                assert(orig.contains(spawns@[k]));
                let m = choose|m: int| 0 <= m < orig.len() && orig[m] == spawns@[k];
                assert(orig[m].x <= 9 && orig[m].y <= 9);
            }
        }
        // Players, each with a unique id and a stacked body on its spawn.
        let np = num_players as usize;
        let mut players: Vec<Player> = Vec::new();
        let mut i: usize = 0;
        while i < np
            invariant
                0 <= i <= np,
                players@.len() == i,
                forall|k: int|
                    0 <= k < i ==> {
                        let p = #[trigger] players@[k]@;
                        p.alive && p.health == 100 && p.move_dir == 'u' && p.turn == 0
                            && p.death_reason == DeathReason::NotDead && p.body.len()
                            == PLAYER_STARTING_LENGTH && (forall|j: int|
                            0 <= j < p.body.len() ==> p.body[j] == spawns@[k]) && p.id >= ID_MIN
                            && p.id <= 9999998 + k
                    },
                forall|k1: int, k2: int|
                    0 <= k1 < i && 0 <= k2 < i && k1 != k2 ==> (#[trigger] players@[k1]@.id)
                        != (#[trigger] players@[k2]@.id),
            decreases np - i,
        {
            let mut id: u32 = ID_MIN + random_below(ID_DRAW_RANGE);
            let mut taken = id_taken(&players, id);
            let mut attempts: u32 = 0;
            while taken && attempts < 16
                invariant
                    ID_MIN <= id <= 9999998,
                    taken == exists|k: int|
                        0 <= k < players@.len() && (#[trigger] players@[k]@.id) == id,
                decreases 16 - attempts,
            {
                id = ID_MIN + random_below(ID_DRAW_RANGE);
                taken = id_taken(&players, id);
                attempts += 1;
            }
            if taken {
                // Deterministic fallback: one past the largest id in use.
                let mx = max_id(&players);
                proof {
                    let ghost wit = choose|k: int|
                        0 <= k < players@.len() && (#[trigger] players@[k]@.id) == mx;
                    assert(mx <= 9999998 + wit);
                    assert(mx <= 9999998 + (i - 1));
                }
                id = mx + 1;
            }
            proof {
                assert(!exists|k: int|
                    0 <= k < players@.len() && (#[trigger] players@[k]@.id) == id);
                assert(ID_MIN <= id && id <= 9999998 + i);
            }
            let spawn = spawns[i];
            let body = stacked_body(spawn, PLAYER_STARTING_LENGTH);
            let mut p = Player::new(id);
            p.body = body;
            players.push(p);
            i += 1;
        }
        let ghost ps = views_of(players@);
        proof {
            assert forall|a: int| 0 <= a < ps.len() implies #[trigger] ps[a] == players@[a]@ by {}
            assert(cells_ok(ps, w, h)) by {
                assert forall|a: int|
                    0 <= a < ps.len() implies (#[trigger] ps[a].id) >= ID_MIN && (ps[a].alive
                    ==> forall|b: int|
                    0 <= b < ps[a].body.len() ==> tile_in_bounds(#[trigger] ps[a].body[b], w, h)) by {
                    assert(ps[a] == players@[a]@);
                    assert forall|b: int| 0 <= b < ps[a].body.len() implies tile_in_bounds(
                        #[trigger] ps[a].body[b],
                        w,
                        h,
                    ) by {
                        assert(ps[a].body[b] == spawns@[a]);
                        assert(spawns@[a].x <= 9 && spawns@[a].y <= 9);
                    }
                }
            }
            assert(players_disjoint(ps)) by {
                assert forall|a: int, b: int|
                    0 <= a < ps.len() && 0 <= b < ps.len() && a != b && ps[a].alive && ps[b].alive
                        implies bodies_disjoint(#[trigger] ps[a], #[trigger] ps[b]) by {
                    assert forall|jj: int| 0 <= jj < ps[b].body.len() implies !covers(
                        ps[a],
                        #[trigger] ps[b].body[jj],
                    ) by {
                        assert(ps[b].body[jj] == spawns@[b]);
                        if covers(ps[a], spawns@[b]) {
                            let j2 = choose|j2: int|
                                0 <= j2 < ps[a].body.len() && ps[a].body[j2] == spawns@[b];
                            assert(ps[a].body[j2] == spawns@[a]);
                            assert(spawns@.no_duplicates());
                            assert(false);
                        }
                    }
                }
            }
            assert(food_ok(ps, Seq::<Tile>::empty(), w, h));
        }
        let mut food: Vec<Tile> = Vec::new();
        let mut board = build_board(&players, &food, w, h);
        proof {
            assert(food_ok(ps, food@, w, h));
            assert(board_matches(board@, ps, food@, w, h));
        }
        // One pellet per player, each on a random empty cell, each with a
        // bounded number of attempts; a miss degrades quietly.
        let mut f: usize = 0;
        while f < np
            invariant
                0 <= f <= np,
                food@.len() <= f,
                food@.len() == f || board_full(ps, food@, w, h),
                food_ok(ps, food@, w, h),
                board_matches(board@, ps, food@, w, h),
            decreases np - f,
        {
            let mut a: u32 = 0;
            let mut fx: u32 = 0;
            let mut fy: u32 = 0;
            let mut found = false;
            while !found && a < SPAWN_RETRY_LIMIT
                invariant
                    found ==> fx < w && fy < h && board@[idx_of(Tile { x: fx, y: fy }, w)] == 0,
                decreases SPAWN_RETRY_LIMIT - a, (if found { 1int } else { 0int }),
            {
                let x = random_below(w);
                let y = random_below(h);
                let c = cell_index(w, h, Tile { x: x, y: y });
                if board[c] == 0 {
                    fx = x;
                    fy = y;
                    found = true;
                }
                a += 1;
            }
            if !found {
                // The random draws missed: fall back to a deterministic
                // scan, so a pellet is only ever skipped on a full board.
                match find_empty_cell(&board, w, h) {
                    Some(t2) => {
                        fx = t2.x;
                        fy = t2.y;
                        found = true;
                    },
                    None => {
                        proof {
                            assert(board_full(ps, food@, w, h)) by {
                                assert forall|x2: int, y2: int|
                                    0 <= x2 < w && 0 <= y2 < h implies #[trigger] cell_occupied(
                                    ps,
                                    food@,
                                    x2,
                                    y2,
                                ) by {
                                    assert(board@[y2 * w + x2] != 0);
                                }
                            }
                        }
                    },
                }
            }
            if found {
                let t = Tile { x: fx, y: fy };
                let c = cell_index(w, h, t);
                let ghost food0 = food@;
                let ghost board0 = board@;
                board[c] = FOOD_ID;
                food.push(t);
                proof {
                    lemma_idx_in_range(w, h, t);
                    assert(food@ == food0.push(t));
                    if food0.len() != f as int {
                        assert(board_full(ps, food0, w, h));
                        assert forall|x2: int, y2: int|
                            0 <= x2 < w && 0 <= y2 < h implies #[trigger] cell_occupied(
                            ps,
                            food@,
                            x2,
                            y2,
                        ) by {
                            assert(cell_occupied(ps, food0, x2, y2));
                            if food_at(food0, x2, y2) {
                                let m = choose|m: int|
                                    0 <= m < food0.len() && food0[m].x == x2 && food0[m].y == y2;
                                assert(food@[m] == food0[m]);
                                assert(food_at(food@, x2, y2));
                            }
                        }
                        assert(board_full(ps, food@, w, h));
                    }
                    assert(food_ok(ps, food@, w, h)) by {
                        assert forall|k: int, l: int|
                            0 <= k < food@.len() && 0 <= l < food@.len() && k != l
                                implies #[trigger] food@[k] != #[trigger] food@[l] by {
                            if k < food0.len() && l < food0.len() {
                                assert(food0[k] != food0[l]);
                            } else if k < food0.len() {
                                assert(board0[idx_of(food0[k], w)] == FOOD_ID);
                                assert(food@[l] == t);
                                assert(board0[idx_of(t, w)] == 0);
                            } else {
                                assert(board0[idx_of(food0[l], w)] == FOOD_ID);
                                assert(food@[k] == t);
                                assert(board0[idx_of(t, w)] == 0);
                            }
                        }
                        assert forall|k: int, a2: int|
                            0 <= k < food@.len() && 0 <= a2 < ps.len() && ps[a2].alive
                                implies !covers(#[trigger] ps[a2], #[trigger] food@[k]) by {
                            if k < food0.len() {
                                assert(!covers(ps[a2], food0[k]));
                            } else {
                                assert(food@[k] == t);
                                if covers(ps[a2], t) {
                                    let j2 = choose|j2: int|
                                        0 <= j2 < ps[a2].body.len() && ps[a2].body[j2] == t;
                                    assert(board0[idx_of(ps[a2].body[j2], w)] == ps[a2].id);
                                    assert(ps[a2].id >= ID_MIN);
                                    assert(false);
                                }
                            }
                        }
                    }
                    assert(board_matches(board@, ps, food@, w, h)) by {
                        assert forall|a2: int, b: int|
                            0 <= a2 < ps.len() && ps[a2].alive && 0 <= b < ps[a2].body.len()
                                implies #[trigger] board@[idx_of(ps[a2].body[b], w)]
                            == ps[a2].id by {
                            assert(ps[a2].id >= ID_MIN);
                            lemma_idx_in_range(w, h, ps[a2].body[b]);
                            if idx_of(ps[a2].body[b], w) == c as int {
                                assert(board0[idx_of(ps[a2].body[b], w)] == ps[a2].id);
                                assert(board0[c as int] == 0);
                                assert(false);
                            }
                        }
                        assert forall|k: int|
                            0 <= k < food@.len() implies #[trigger] board@[idx_of(food@[k], w)]
                            == FOOD_ID by {
                            lemma_idx_in_range(w, h, food@[k]);
                            if k < food0.len() {
                                assert(board0[idx_of(food0[k], w)] == FOOD_ID);
                                if idx_of(food0[k], w) == c as int {
                                    assert(board0[c as int] == 0);
                                    assert(false);
                                }
                            } else {
                                assert(food@[k] == t);
                            }
                        }
                        assert forall|x: int, y: int|
                            0 <= x < w && 0 <= y < h && #[trigger] board@[y * w + x] != 0
                                implies food_at(food@, x, y) || exists|i2: int|
                            0 <= i2 < ps.len() && ps[i2].alive && covers(
                                #[trigger] ps[i2],
                                Tile { x: x as u32, y: y as u32 },
                            ) by {
                            let t0 = Tile { x: x as u32, y: y as u32 };
                            lemma_idx_in_range(w, h, t0);
                            assert(idx_of(t0, w) == y * w + x);
                            if y * w + x == c as int {
                                lemma_idx_injective(w, h, t0, t);
                                assert(food@[food0.len() as int] == t);
                                assert(food_at(food@, x, y));
                            } else {
                                assert(board0[y * w + x] != 0);
                                if food_at(food0, x, y) {
                                    let k = choose|k: int|
                                        0 <= k < food0.len() && food0[k].x == x && food0[k].y == y;
                                    assert(food@[k] == food0[k]);
                                    assert(food_at(food@, x, y));
                                }
                            }
                        }
                    }
                }
            }
            f += 1;
        }
        let g = GameInstance {
            board_width: board_width,
            board_height: board_height,
            num_players: num_players,
            food_spawn_chance: food_spawn_chance,
            game_id: 1000000,
            over: false,
            turn: 0,
            board: board,
            players: players,
            food: food,
        };
        proof {
            assert(g@.players == ps);
            assert forall|k: int| 0 <= k < ps.len() implies (#[trigger] ps[k]).alive by {
                assert(ps[k] == players@[k]@);
            }
            lemma_alive_count_all(ps);
            assert(roster_ok(ps, w, h)) by {
                assert forall|a: int|
                    0 <= a < ps.len() implies {
                    let p = #[trigger] ps[a];
                    &&& p.id >= ID_MIN
                    &&& 0 <= p.health <= 100
                    &&& p.body.len() >= 2
                    &&& (p.alive ==> p.body.len() >= 3 && p.health >= 1 && p.death_reason
                        == DeathReason::NotDead)
                    &&& (p.alive ==> forall|j: int|
                        0 <= j < p.body.len() ==> tile_in_bounds(#[trigger] p.body[j], w, h))
                } by {
                    assert(ps[a] == players@[a]@);
                    assert(cells_ok(ps, w, h));
                    assert(ps[a].id >= ID_MIN);
                }
            }
            assert(!over_cond(alive_count(ps), num_players));
            assert(wf(g@));
            assert forall|i2: int|
                0 <= i2 < g@.players.len() implies {
                let p = #[trigger] g@.players[i2];
                p.alive && p.health == 100 && p.move_dir == 'u' && p.death_reason
                    == DeathReason::NotDead && p.body.len() == PLAYER_STARTING_LENGTH && (forall|
                    j: int,
                |
                    0 <= j < p.body.len() ==> #[trigger] p.body[j] == p.body[0])
            } by {
                assert(ps[i2] == players@[i2]@);
                assert forall|j: int|
                    0 <= j < ps[i2].body.len() implies #[trigger] ps[i2].body[j]
                    == ps[i2].body[0] by {
                    assert(ps[i2].body[j] == spawns@[i2]);
                    assert(ps[i2].body[0] == spawns@[i2]);
                }
            }
        }
        g
    }
}

} // verus!

verus! {

/// The turn counter after a tick; it sticks at the top of its range.
pub open spec fn sat_inc(t: u32) -> int {
    if t < 0xFFFF_FFFFu32 {
        t + 1
    } else {
        t as int
    }
}

/// Whether the cell holds food or part of a live body.
pub open spec fn cell_occupied(ps: Seq<PlayerV>, food: Seq<Tile>, x: int, y: int) -> bool {
    food_at(food, x, y) || exists|i: int|
        0 <= i < ps.len() && ps[i].alive && covers(#[trigger] ps[i], Tile { x: x as u32, y: y as u32 })
}

/// Every cell of the board is occupied.
pub open spec fn board_full(ps: Seq<PlayerV>, food: Seq<Tile>, w: u32, h: u32) -> bool {
    forall|x: int, y: int| 0 <= x < w && 0 <= y < h ==> #[trigger] cell_occupied(ps, food, x, y)
}

/// What one tick does: the roster steps deterministically, eaten food goes,
/// at most one pellet spawns (only on a free cell, never on a full board,
/// never with a zero chance while food remains), and the game is over
/// exactly when too few players are left.
pub open spec fn step_rel(g0: GameV, g1: GameV) -> bool {
    let sr = stepped_roster(g0.players, g0.food, g0.width, g0.height);
    let kept = food_after_eat(g0.players, g0.food, g0.width, g0.height);
    &&& g1.width == g0.width
    &&& g1.height == g0.height
    &&& g1.num_players == g0.num_players
    &&& g1.food_chance == g0.food_chance
    &&& g1.game_id == g0.game_id
    &&& g1.turn == sat_inc(g0.turn)
    &&& g1.players == sr
    &&& (g1.food == kept || exists|t: Tile|
        g1.food == kept.push(t) && tile_in_bounds(t, g0.width, g0.height) && !cell_occupied(
            sr,
            kept,
            t.x as int,
            t.y as int,
        ))
    &&& (board_full(sr, kept, g0.width, g0.height) ==> g1.food == kept)
    &&& (g0.food_chance == 0 && kept.len() > 0 ==> g1.food == kept)
    &&& g1.over == over_cond(alive_count(sr), g0.num_players)
}

/// Pellets that stay are pellets that were there, that no head landed on;
/// they keep their mutual distinctness.
proof fn lemma_food_kept_props(ps: Seq<PlayerV>, food: Seq<Tile>, w: u32, h: u32, k: int)
    requires
        0 <= k <= food.len(),
        forall|a: int, b: int|
            0 <= a < food.len() && 0 <= b < food.len() && a != b ==> #[trigger] food[a]
                != #[trigger] food[b],
    ensures
        forall|m: int|
            0 <= m < food_kept(ps, food, w, h, k).len() ==> exists|l: int|
                0 <= l < k && food[l] == #[trigger] food_kept(ps, food, w, h, k)[m]
                    && !head_lands_on(ps, w, h, food[l]),
        forall|m1: int, m2: int|
            0 <= m1 < food_kept(ps, food, w, h, k).len() && 0 <= m2 < food_kept(
                ps,
                food,
                w,
                h,
                k,
            ).len() && m1 != m2 ==> #[trigger] food_kept(ps, food, w, h, k)[m1]
                != #[trigger] food_kept(ps, food, w, h, k)[m2],
        food_kept(ps, food, w, h, k).len() <= k,
    decreases k,
{
    if k > 0 {
        lemma_food_kept_props(ps, food, w, h, k - 1);
        let rest = food_kept(ps, food, w, h, k - 1);
        let cur = food_kept(ps, food, w, h, k);
        if !head_lands_on(ps, w, h, food[k - 1]) {
            assert(cur == rest.push(food[k - 1]));
            assert forall|m1: int, m2: int|
                0 <= m1 < cur.len() && 0 <= m2 < cur.len() && m1 != m2 implies #[trigger] cur[m1]
                != #[trigger] cur[m2] by {
                if m1 < rest.len() && m2 < rest.len() {
                    assert(cur[m1] == rest[m1] && cur[m2] == rest[m2]);
                } else if m1 < rest.len() {
                    assert(cur[m2] == food[k - 1]);
                    let l = choose|l: int|
                        0 <= l < k - 1 && food[l] == rest[m1] && !head_lands_on(ps, w, h, food[l]);
                    assert(food[l] != food[k - 1]);
                } else {
                    assert(cur[m1] == food[k - 1]);
                    let l = choose|l: int|
                        0 <= l < k - 1 && food[l] == rest[m2] && !head_lands_on(ps, w, h, food[l]);
                    assert(food[l] != food[k - 1]);
                }
            }
        }
    }
}

/// One tick keeps the game sane: the stepped roster is well formed, live
/// players still never overlap, and the surviving pellets still lie on free
/// cells.
pub proof fn lemma_step_preserves(ps: Seq<PlayerV>, food: Seq<Tile>, w: u32, h: u32)
    requires
        roster_ok(ps, w, h),
        players_disjoint(ps),
        food_ok(ps, food, w, h),
    ensures
        roster_ok(stepped_roster(ps, food, w, h), w, h),
        players_disjoint(stepped_roster(ps, food, w, h)),
        food_ok(
            stepped_roster(ps, food, w, h),
            food_after_eat(ps, food, w, h),
            w,
            h,
        ),
{
    let sr = stepped_roster(ps, food, w, h);
    let kept = food_after_eat(ps, food, w, h);
    lemma_food_kept_props(ps, food, w, h, food.len() as int);
    // Per-player sanity of the stepped roster.
    assert forall|i: int|
        0 <= i < sr.len() implies {
        let p = #[trigger] sr[i];
        &&& p.id >= ID_MIN
        &&& 0 <= p.health <= 100
        &&& p.body.len() >= 2
        &&& (p.alive ==> p.body.len() >= 3 && p.health >= 1 && p.death_reason
            == DeathReason::NotDead)
        &&& (p.alive ==> forall|j: int|
            0 <= j < p.body.len() ==> tile_in_bounds(#[trigger] p.body[j], w, h))
    } by {
        assert(ps[i].id >= ID_MIN);
        assert(sr[i] == stepped_pv(ps, i, food, w, h));
        if ps[i].alive {
            let m = moved_pv(ps[i], food, w, h);
            assert(sr[i].body == m.body && sr[i].health == m.health && sr[i].id == ps[i].id);
            if sr[i].alive {
                assert(!killed(ps, i, food, w, h));
                assert(!wall_marked(ps[i], w, h) && !starve_marked(ps[i], food, w, h));
                assert(next_in_bounds(ps[i], w, h));
                assert(m.body.len() >= ps[i].body.len());
                assert(m.health != 0);
                assert forall|j: int| 0 <= j < sr[i].body.len() implies tile_in_bounds(
                    #[trigger] sr[i].body[j],
                    w,
                    h,
                ) by {
                    if j == 0 {
                        assert(sr[i].body[0] == next_head(ps[i]));
                    } else {
                        assert(sr[i].body[j] == ps[i].body[j - 1]);
                        assert(tile_in_bounds(ps[i].body[j - 1], w, h));
                    }
                }
            } else {
                if !next_in_bounds(ps[i], w, h) {
                    assert(m.body.len() == ps[i].body.len() - 1 >= 2);
                } else {
                    assert(m.body.len() >= ps[i].body.len());
                }
            }
        }
    }
    assert forall|i: int, j: int|
        0 <= i < sr.len() && 0 <= j < sr.len() && i != j implies (#[trigger] sr[i].id)
        != (#[trigger] sr[j].id) by {
        assert(sr[i].id == ps[i].id && sr[j].id == ps[j].id);
    }
    // Live players still never overlap.
    assert forall|i: int, j: int|
        0 <= i < sr.len() && 0 <= j < sr.len() && i != j && sr[i].alive && sr[j].alive
            implies bodies_disjoint(#[trigger] sr[i], #[trigger] sr[j]) by {
        let mi = moved_pv(ps[i], food, w, h);
        let mj = moved_pv(ps[j], food, w, h);
        assert(ps[i].alive && ps[j].alive);
        assert(!killed(ps, i, food, w, h) && !killed(ps, j, food, w, h));
        assert(sr[i].body == mi.body && sr[j].body == mj.body);
        assert(next_in_bounds(ps[i], w, h) && next_in_bounds(ps[j], w, h));
        assert forall|jj: int| 0 <= jj < sr[j].body.len() implies !covers(
            sr[i],
            #[trigger] sr[j].body[jj],
        ) by {
            if covers(sr[i], sr[j].body[jj]) {
                let ii = choose|ii: int|
                    0 <= ii < sr[i].body.len() && sr[i].body[ii] == sr[j].body[jj];
                if ii == 0 && jj == 0 {
                    // Two surviving heads on one cell: head-to-head would
                    // have killed at least one of them.
                    assert(mi.body[0] == mj.body[0]);
                    if mj.body.len() >= mi.body.len() {
                        assert(h2h_dead(ps, i, food, w, h));
                        assert(killed(ps, i, food, w, h));
                    } else {
                        assert(h2h_dead(ps, j, food, w, h));
                        assert(killed(ps, j, food, w, h));
                    }
                    assert(false);
                } else if ii == 0 {
                    // A surviving head on another body: a body collision
                    // would have killed it.
                    assert(1 <= jj < mj.body.len() && mj.body[jj] == mi.body[0]);
                    assert(tail_covers(mj, mi.body[0]));
                    assert(body_dead(ps, i, food, w, h));
                    assert(false);
                } else if jj == 0 {
                    assert(1 <= ii < mi.body.len() && mi.body[ii] == mj.body[0]);
                    assert(tail_covers(mi, mj.body[0]));
                    assert(body_dead(ps, j, food, w, h));
                    assert(false);
                } else {
                    // Two trailing segments: they already overlapped before
                    // the tick.
                    assert(mi.body[ii] == ps[i].body[ii - 1]);
                    assert(mj.body[jj] == ps[j].body[jj - 1]);
                    assert(bodies_disjoint(ps[i], ps[j]));
                    assert(covers(ps[i], ps[j].body[jj - 1]));
                    assert(false);
                }
            }
        }
    }
    // Surviving pellets still lie on free cells.
    assert forall|k: int| 0 <= k < kept.len() implies tile_in_bounds(#[trigger] kept[k], w, h) by {
        let l = choose|l: int|
            0 <= l < food.len() && food[l] == kept[k] && !head_lands_on(ps, w, h, food[l]);
        assert(tile_in_bounds(food[l], w, h));
    }
    assert forall|k: int, i: int|
        0 <= k < kept.len() && 0 <= i < sr.len() && sr[i].alive implies !covers(
        #[trigger] sr[i],
        #[trigger] kept[k],
    ) by {
        let l = choose|l: int|
            0 <= l < food.len() && food[l] == kept[k] && !head_lands_on(ps, w, h, food[l]);
        if covers(sr[i], kept[k]) {
            let mi = moved_pv(ps[i], food, w, h);
            assert(ps[i].alive && !killed(ps, i, food, w, h));
            assert(next_in_bounds(ps[i], w, h));
            assert(sr[i].body == mi.body);
            let ii = choose|ii: int| 0 <= ii < sr[i].body.len() && sr[i].body[ii] == kept[k];
            if ii == 0 {
                assert(mi.body[0] == next_head(ps[i]));
                assert(head_lands_on(ps, w, h, food[l]));
                assert(false);
            } else {
                assert(mi.body[ii] == ps[i].body[ii - 1]);
                assert(covers(ps[i], food[l]));
                assert(false);
            }
        }
    }
}

} // verus!

verus! {

/// A fresh vector with the same tiles.
fn copy_body(b: &Vec<Tile>) -> (r: Vec<Tile>)
    ensures
        r@ == b@,
{
    let mut r: Vec<Tile> = Vec::new();
    let mut k: usize = 0;
    while k < b.len()
        invariant
            0 <= k <= b@.len(),
            r@ == b@.take(k as int),
        decreases b@.len() - k,
    {
        r.push(b[k]);
        proof {
            assert(r@ =~= b@.take(k + 1));
        }
        k += 1;
    }
    proof {
        assert(r@ =~= b@);
    }
    r
}

/// A fresh player with the same state.
fn copy_player(p: &Player) -> (r: Player)
    ensures
        r@ == p@,
{
    Player {
        id: p.id,
        alive: p.alive,
        health: p.health,
        move_dir: p.move_dir,
        turn: p.turn,
        death_reason: p.death_reason,
        body: copy_body(&p.body),
    }
}

/// The cell the player's head is about to enter, if it stays on the board.
fn next_of(p: &Player, w: u32, h: u32) -> (r: Option<Tile>)
    requires
        p@.body.len() >= 1,
    ensures
        r.is_some() == next_in_bounds(p@, w, h),
        next_in_bounds(p@, w, h) ==> r == Some(next_head(p@)),
{
    let head = p.body[0];
    let mut nx: i64 = head.x as i64;
    let mut ny: i64 = head.y as i64;
    if p.move_dir == 'u' {
        ny = ny - 1;
    } else if p.move_dir == 'd' {
        ny = ny + 1;
    } else if p.move_dir == 'l' {
        nx = nx - 1;
    } else if p.move_dir == 'r' {
        nx = nx + 1;
    }
    proof {
        assert(nx == next_x(p@) && ny == next_y(p@));
    }
    if nx >= 0 && nx < w as i64 && ny >= 0 && ny < h as i64 {
        Some(Tile { x: nx as u32, y: ny as u32 })
    } else {
        None
    }
}

/// Apply one live player's pending move: the health drop or reset, and the
/// body's advance, growth, or lost tail.
fn move_one(p: &Player, food: &Vec<Tile>, w: u32, h: u32) -> (mp: Player)
    requires
        p@.alive,
        p@.body.len() >= 1,
        p@.health >= 1,
    ensures
        mp@ == moved_pv(p@, food@, w, h),
{
    let mut body = copy_body(&p.body);
    let mut health = p.health;
    match next_of(p, w, h) {
        None => {
            body.pop();
            health = health - 1;
            proof {
                assert(body@ =~= p@.body.drop_last());
            }
        },
        Some(nh) => {
            let on_food = food_contains(food, nh.x, nh.y);
            proof {
                assert(nh.x as int == next_x(p@) && nh.y as int == next_y(p@));
                assert(on_food == eats(p@, food@, w, h));
            }
            if on_food {
                health = 100;
                body.insert(0, nh);
                proof {
                    assert(body@ =~= seq![next_head(p@)] + p@.body);
                }
            } else {
                health = health - 1;
                body.pop();
                body.insert(0, nh);
                proof {
                    assert(body@ =~= seq![next_head(p@)] + p@.body.drop_last());
                }
            }
        },
    }
    let mp = Player {
        id: p.id,
        alive: p.alive,
        health: health,
        move_dir: p.move_dir,
        turn: p.turn,
        death_reason: p.death_reason,
        body: body,
    };
    mp
}

/// Whether some live player's head lands on this tile this tick.
#[verifier::loop_isolation(false)]
fn any_head_lands(players: &Vec<Player>, t: Tile, w: u32, h: u32) -> (r: bool)
    requires
        forall|k: int| 0 <= k < players@.len() && players@[k]@.alive ==> players@[k]@.body.len() >= 1,
    ensures
        r == head_lands_on(views_of(players@), w, h, t),
{
    let ghost ps = views_of(players@);
    let mut k: usize = 0;
    while k < players.len()
        invariant
            0 <= k <= ps.len(),
            forall|m: int|
                0 <= m < k ==> !((#[trigger] ps[m]).alive && next_in_bounds(ps[m], w, h)
                    && next_head(ps[m]) == t),
        decreases ps.len() - k,
    {
        proof {
            assert(ps[k as int] == players@[k as int]@);
        }
        if players[k].alive {
            match next_of(&players[k], w, h) {
                Some(nh) => {
                    if nh.x == t.x && nh.y == t.y {
                        proof {
                            assert(next_head(ps[k as int]) == t);
                        }
                        return true;
                    }
                },
                None => {},
            }
        }
        k += 1;
    }
    false
}

/// Whether player i dies head-to-head, judged on the already-moved bodies.
#[verifier::loop_isolation(false)]
fn check_h2h(
    players: &Vec<Player>,
    moved: &Vec<Player>,
    i: usize,
    Ghost(food): Ghost<Seq<Tile>>,
    Ghost(w): Ghost<u32>,
    Ghost(h): Ghost<u32>,
) -> (r: bool)
    requires
        players@.len() == moved@.len(),
        i < players@.len(),
        forall|k: int|
            0 <= k < players@.len() ==> #[trigger] moved@[k]@ == moved_pv(
                views_of(players@)[k],
                food,
                w,
                h,
            ),
        forall|k: int|
            0 <= k < players@.len() && players@[k]@.alive ==> moved@[k]@.body.len() >= 1,
        players@[i as int]@.alive,
    ensures
        r == h2h_dead(views_of(players@), i as int, food, w, h),
{
    let ghost ps = views_of(players@);
    let head_i = moved[i].body[0];
    let len_i = moved[i].body.len();
    let mut j: usize = 0;
    while j < players.len()
        invariant
            0 <= j <= ps.len(),
            forall|m: int|
                0 <= m < j ==> !(m != i && (#[trigger] ps[m]).alive && moved_pv(
                    ps[m],
                    food,
                    w,
                    h,
                ).body[0] == moved_pv(ps[i as int], food, w, h).body[0] && moved_pv(
                    ps[m],
                    food,
                    w,
                    h,
                ).body.len() >= moved_pv(ps[i as int], food, w, h).body.len()),
        decreases ps.len() - j,
    {
        proof {
            assert(ps[j as int] == players@[j as int]@);
            assert(moved@[j as int]@ == moved_pv(ps[j as int], food, w, h));
            assert(moved@[i as int]@ == moved_pv(ps[i as int], food, w, h));
        }
        if j != i && players[j].alive {
            let hj = moved[j].body[0];
            if hj.x == head_i.x && hj.y == head_i.y && moved[j].body.len() >= len_i {
                return true;
            }
        }
        j += 1;
    }
    false
}

/// Whether player i's moved head lies on a moved non-head segment of a
/// player that entered the tick alive.
#[verifier::loop_isolation(false)]
fn check_body_hit(
    players: &Vec<Player>,
    moved: &Vec<Player>,
    i: usize,
    Ghost(food): Ghost<Seq<Tile>>,
    Ghost(w): Ghost<u32>,
    Ghost(h): Ghost<u32>,
) -> (r: bool)
    requires
        players@.len() == moved@.len(),
        i < players@.len(),
        forall|k: int|
            0 <= k < players@.len() ==> #[trigger] moved@[k]@ == moved_pv(
                views_of(players@)[k],
                food,
                w,
                h,
            ),
        forall|k: int|
            0 <= k < players@.len() && players@[k]@.alive ==> moved@[k]@.body.len() >= 1,
        players@[i as int]@.alive,
    ensures
        r == body_dead(views_of(players@), i as int, food, w, h),
{
    let ghost ps = views_of(players@);
    let head_i = moved[i].body[0];
    let mut q: usize = 0;
    while q < players.len()
        invariant
            0 <= q <= ps.len(),
            forall|m: int|
                0 <= m < q ==> !((#[trigger] ps[m]).alive && tail_covers(
                    moved_pv(ps[m], food, w, h),
                    moved_pv(ps[i as int], food, w, h).body[0],
                )),
        decreases ps.len() - q,
    {
        proof {
            assert(ps[q as int] == players@[q as int]@);
            assert(moved@[q as int]@ == moved_pv(ps[q as int], food, w, h));
            assert(moved@[i as int]@ == moved_pv(ps[i as int], food, w, h));
        }
        if players[q].alive {
            let mut jj: usize = 1;
            let ghost mq = moved_pv(ps[q as int], food, w, h);
            while jj < moved[q].body.len()
                invariant
                    1 <= jj,
                    q < ps.len(),
                    moved@[q as int]@ == mq,
                    forall|b: int| 1 <= b < jj ==> mq.body[b] != moved_pv(
                        ps[i as int],
                        food,
                        w,
                        h,
                    ).body[0],
                decreases moved@[q as int]@.body.len() - jj,
            {
                let seg = moved[q].body[jj];
                if seg.x == head_i.x && seg.y == head_i.y {
                    proof {
                        assert(mq.body[jj as int] == moved_pv(ps[i as int], food, w, h).body[0]);
                        assert(tail_covers(mq, moved_pv(ps[i as int], food, w, h).body[0]));
                    }
                    return true;
                }
                jj += 1;
            }
            proof {
                assert(!tail_covers(mq, moved_pv(ps[i as int], food, w, h).body[0]));
            }
        }
        q += 1;
    }
    false
}

/// Count the players whose alive flag is set.
#[verifier::loop_isolation(false)]
pub fn count_alive_pub(players: &Vec<Player>) -> (r: usize)
    ensures
        r == alive_count(views_of(players@)),
        r <= players@.len(),
    decreases players@.len(),
{
    let ghost ps = views_of(players@);
    let mut r: usize = 0;
    let mut k: usize = 0;
    while k < players.len()
        invariant
            0 <= k <= ps.len(),
            r <= k,
            r == alive_count(ps.take(k as int)),
        decreases ps.len() - k,
    {
        proof {
            assert(ps.take(k + 1).drop_last() =~= ps.take(k as int));
            assert(ps.take(k + 1).last() == ps[k as int]);
            assert(ps[k as int] == players@[k as int]@);
        }
        if players[k].alive {
            r = r + 1;
        }
        k += 1;
    }
    proof {
        assert(ps.take(ps.len() as int) =~= ps);
    }
    r
}

} // verus!

verus! {

impl GameInstance {
    /// One tick: every live player moves (eating, hitting a wall, or
    /// starving), head-to-head and head-into-body collisions are resolved,
    /// deaths are applied, eaten pellets go, at most one pellet spawns on a
    /// random empty cell (with a bounded number of attempts, forced when no
    /// food is left), the board is rebuilt, and the over flag is refreshed.
    #[verifier::loop_isolation(false)]
    #[verifier::rlimit(100)]
    pub fn step(&mut self)
        requires
            wf(old(self)@),
        ensures
            wf(final(self)@),
            step_rel(old(self)@, final(self)@),
    {
        let ghost g0 = self@;
        let ghost ps = g0.players;
        let ghost sr = stepped_roster(ps, g0.food, g0.width, g0.height);
        let ghost kept = food_after_eat(ps, g0.food, g0.width, g0.height);
        let w = self.board_width;
        let h = self.board_height;
        proof {
            lemma_step_preserves(ps, g0.food, w, h);
        }
        if self.turn < 0xFFFF_FFFFu32 {
            self.turn = self.turn + 1;
        }
        // Move every live player; a dead one is carried over as it is.
        let mut moved: Vec<Player> = Vec::new();
        let mut i: usize = 0;
        while i < self.players.len()
            invariant
                0 <= i <= ps.len(),
                views_of(self.players@) == ps,
                self.food@ == g0.food,
                moved@.len() == i,
                forall|k: int|
                    0 <= k < i ==> #[trigger] moved@[k]@ == moved_pv(ps[k], g0.food, w, h),
            decreases ps.len() - i,
        {
            proof {
                assert(ps[i as int] == self.players@[i as int]@);
                assert(ps[i as int].id >= ID_MIN);
            }
            if self.players[i].alive {
                let mp = move_one(&self.players[i], &self.food, w, h);
                moved.push(mp);
            } else {
                let mp = copy_player(&self.players[i]);
                moved.push(mp);
                proof {
                    assert(moved@[i as int]@ == moved_pv(ps[i as int], g0.food, w, h));
                }
            }
            i += 1;
        }
        proof {
            assert forall|k: int|
                0 <= k < ps.len() && views_of(self.players@)[k].alive
                    implies moved@[k]@.body.len() >= 1 by {
                assert(ps[k].id >= ID_MIN);
            }
        }
        // Decide every death and build the stepped roster.
        let mut stepped: Vec<Player> = Vec::new();
        let mut i2: usize = 0;
        while i2 < self.players.len()
            invariant
                0 <= i2 <= ps.len(),
                views_of(self.players@) == ps,
                self.food@ == g0.food,
                moved@.len() == ps.len(),
                forall|k: int|
                    0 <= k < ps.len() ==> #[trigger] moved@[k]@ == moved_pv(ps[k], g0.food, w, h),
                stepped@.len() == i2,
                forall|k: int| 0 <= k < i2 ==> #[trigger] stepped@[k]@ == sr[k],
            decreases ps.len() - i2,
        {
            proof {
                assert(ps[i2 as int] == self.players@[i2 as int]@);
                assert(ps[i2 as int].id >= ID_MIN);
            }
            if !self.players[i2].alive {
                let np = copy_player(&self.players[i2]);
                stepped.push(np);
                proof {
                    assert(stepped@[i2 as int]@ == stepped_pv(ps, i2 as int, g0.food, w, h));
                }
            } else {
                proof {
                    assert forall|k: int|
                        0 <= k < ps.len() && views_of(self.players@)[k].alive
                            implies moved@[k]@.body.len() >= 1 by {
                        assert(ps[k].id >= ID_MIN);
                    }
                }
                let wall = next_of(&self.players[i2], w, h).is_none();
                let starve = moved[i2].health == 0;
                let h2h = check_h2h(
                    &self.players,
                    &moved,
                    i2,
                    Ghost(g0.food),
                    Ghost(w),
                    Ghost(h),
                );
                let hit = check_body_hit(
                    &self.players,
                    &moved,
                    i2,
                    Ghost(g0.food),
                    Ghost(w),
                    Ghost(h),
                );
                let dies = wall || starve || h2h || hit;
                let reason = if hit {
                    DeathReason::Body
                } else if h2h {
                    DeathReason::Eaten
                } else if starve {
                    DeathReason::Starve
                } else if wall {
                    DeathReason::Body
                } else {
                    self.players[i2].death_reason
                };
                let mut np = copy_player(&moved[i2]);
                np.alive = !dies;
                np.death_reason = reason;
                stepped.push(np);
                proof {
                    assert(wall == wall_marked(ps[i2 as int], w, h));
                    assert(starve == starve_marked(ps[i2 as int], g0.food, w, h));
                    assert(h2h == h2h_dead(ps, i2 as int, g0.food, w, h));
                    assert(hit == body_dead(ps, i2 as int, g0.food, w, h));
                    assert(dies == killed(ps, i2 as int, g0.food, w, h));
                    assert(reason == reason_after(ps, i2 as int, g0.food, w, h));
                    assert(stepped@[i2 as int]@ == stepped_pv(ps, i2 as int, g0.food, w, h));
                }
            }
            i2 += 1;
        }
        proof {
            assert(views_of(stepped@) =~= sr) by {
                assert forall|k: int| 0 <= k < sr.len() implies views_of(stepped@)[k] == sr[k] by {
                    assert(stepped@[k]@ == sr[k]);
                }
            }
        }
        // Drop every pellet a head lands on.
        let mut new_food: Vec<Tile> = Vec::new();
        let mut k: usize = 0;
        while k < self.food.len()
            invariant
                0 <= k <= g0.food.len(),
                views_of(self.players@) == ps,
                self.food@ == g0.food,
                new_food@ == food_kept(ps, g0.food, w, h, k as int),
            decreases g0.food.len() - k,
        {
            proof {
                assert forall|m: int|
                    0 <= m < self.players@.len() && self.players@[m]@.alive
                        implies self.players@[m]@.body.len() >= 1 by {
                    assert(ps[m] == self.players@[m]@);
                    assert(ps[m].id >= ID_MIN);
                }
            }
            let t = self.food[k];
            let landed = any_head_lands(&self.players, t, w, h);
            if !landed {
                new_food.push(t);
            }
            k += 1;
        }
        proof {
            assert(new_food@ == kept);
        }
        // Rebuild the board from the survivors and the surviving pellets.
        proof {
            assert(cells_ok(sr, w, h)) by {
                assert forall|a: int|
                    0 <= a < sr.len() implies (#[trigger] sr[a].id) >= ID_MIN && (sr[a].alive
                    ==> forall|b: int|
                    0 <= b < sr[a].body.len() ==> tile_in_bounds(#[trigger] sr[a].body[b], w, h)) by {
                    assert(roster_ok(sr, w, h));
                }
            }
            assert(cells_ok(views_of(stepped@), w, h));
            assert(players_disjoint(views_of(stepped@)));
            assert(food_ok(views_of(stepped@), new_food@, w, h));
        }
        let mut board = build_board(&stepped, &new_food, w, h);
        proof {
            assert(board_matches(board@, sr, kept, w, h));
        }
        // Spawn at most one pellet: forced when no food is left, otherwise
        // decided by a random draw against the configured chance.
        let draw = random_below(CHANCE_DENOM);
        let spawn_wanted = new_food.len() == 0 || draw < self.food_spawn_chance;
        let mut placed = false;
        let mut fx: u32 = 0;
        let mut fy: u32 = 0;
        if spawn_wanted {
            let mut a: u32 = 0;
            let mut found = false;
            while !found && a < SPAWN_RETRY_LIMIT
                invariant
                    found ==> fx < w && fy < h && board@[idx_of(Tile { x: fx, y: fy }, w)] == 0,
                decreases SPAWN_RETRY_LIMIT - a, (if found { 1int } else { 0int }),
            {
                let x = random_below(w);
                let y = random_below(h);
                let c = cell_index(w, h, Tile { x: x, y: y });
                if board[c] == 0 {
                    fx = x;
                    fy = y;
                    found = true;
                }
                a += 1;
            }
            if found {
                let t = Tile { x: fx, y: fy };
                let c = cell_index(w, h, t);
                let ghost board0 = board@;
                board[c] = FOOD_ID;
                new_food.push(t);
                placed = true;
                proof {
                    lemma_spawn_on_free_cell(board0, board@, sr, kept, t, w, h);
                    assert(new_food@ == kept.push(t));
                }
            }
        }
        // Refresh the over flag and commit the new state.
        let alive_n = count_alive_pub(&stepped);
        let over_now = (alive_n <= 1 && self.num_players > 1) || (alive_n == 0 && self.num_players
            == 1);
        self.over = over_now;
        self.players = stepped;
        self.food = new_food;
        self.board = board;
        proof {
            assert(self@.players == views_of(stepped@));
            assert(self@.players == sr);
            assert(alive_n == alive_count(sr));
            assert(self@.over == over_cond(alive_count(sr), g0.num_players));
            if placed {
                let t = Tile { x: fx, y: fy };
                assert(self@.food == kept.push(t) && tile_in_bounds(t, w, h) && !cell_occupied(
                    sr,
                    kept,
                    t.x as int,
                    t.y as int,
                ));
                assert(!board_full(sr, kept, w, h)) by {
                    assert(!cell_occupied(sr, kept, fx as int, fy as int));
                }
                assert(!(g0.food_chance == 0 && kept.len() > 0));
            } else {
                assert(self@.food == kept);
            }
            assert(wf(self@)) by {
                assert(roster_ok(sr, w, h) && players_disjoint(sr));
                if placed {
                    assert(food_ok(sr, self@.food, w, h));
                    assert(board_matches(self@.board, sr, self@.food, w, h));
                } else {
                    assert(food_ok(sr, self@.food, w, h));
                    assert(board_matches(self@.board, sr, self@.food, w, h));
                }
                assert(sr.len() == ps.len());
            }
            assert(step_rel(g0, self@));
        }
    }
}

} // verus!

verus! {

/// Painting one pellet on a free cell keeps the board and the food set
/// consistent, and the cell really was unoccupied.
proof fn lemma_spawn_on_free_cell(
    board0: Seq<u32>,
    board1: Seq<u32>,
    sr: Seq<PlayerV>,
    kept: Seq<Tile>,
    t: Tile,
    w: u32,
    h: u32,
)
    requires
        10 <= w <= MAX_DIM,
        10 <= h <= MAX_DIM,
        roster_ok(sr, w, h),
        food_ok(sr, kept, w, h),
        board_matches(board0, sr, kept, w, h),
        tile_in_bounds(t, w, h),
        board0[idx_of(t, w)] == 0,
        board1 == board0.update(idx_of(t, w), FOOD_ID),
    ensures
        !cell_occupied(sr, kept, t.x as int, t.y as int),
        food_ok(sr, kept.push(t), w, h),
        board_matches(board1, sr, kept.push(t), w, h),
{
    let c = idx_of(t, w);
    let pushed = kept.push(t);
    lemma_idx_in_range(w, h, t);
    assert(!cell_occupied(sr, kept, t.x as int, t.y as int)) by {
        if food_at(kept, t.x as int, t.y as int) {
            let m = choose|m: int| 0 <= m < kept.len() && kept[m].x == t.x && kept[m].y == t.y;
            assert(kept[m] == t);
            assert(board0[idx_of(kept[m], w)] == FOOD_ID);
            assert(false);
        }
        if exists|i3: int| 0 <= i3 < sr.len() && sr[i3].alive && covers(#[trigger] sr[i3], t) {
            let i3 = choose|i3: int|
                0 <= i3 < sr.len() && sr[i3].alive && covers(#[trigger] sr[i3], t);
            let j3 = choose|j3: int| 0 <= j3 < sr[i3].body.len() && sr[i3].body[j3] == t;
            assert(board0[idx_of(sr[i3].body[j3], w)] == sr[i3].id);
            assert(sr[i3].id >= ID_MIN);
            assert(false);
        }
    }
    assert(food_ok(sr, pushed, w, h)) by {
        assert forall|k2: int, l2: int|
            0 <= k2 < pushed.len() && 0 <= l2 < pushed.len() && k2 != l2
                implies #[trigger] pushed[k2] != #[trigger] pushed[l2] by {
            if k2 < kept.len() && l2 < kept.len() {
                assert(kept[k2] != kept[l2]);
            } else if k2 < kept.len() {
                assert(pushed[l2] == t);
                assert(board0[idx_of(kept[k2], w)] == FOOD_ID);
            } else {
                assert(pushed[k2] == t);
                assert(board0[idx_of(kept[l2], w)] == FOOD_ID);
            }
        }
        assert forall|k2: int, a2: int|
            0 <= k2 < pushed.len() && 0 <= a2 < sr.len() && sr[a2].alive implies !covers(
            #[trigger] sr[a2],
            #[trigger] pushed[k2],
        ) by {
            if k2 < kept.len() {
                assert(!covers(sr[a2], kept[k2]));
            } else {
                assert(pushed[k2] == t);
                assert(!cell_occupied(sr, kept, t.x as int, t.y as int));
                if covers(sr[a2], t) {
                    assert(false);
                }
            }
        }
    }
    assert(board_matches(board1, sr, pushed, w, h)) by {
        assert forall|a2: int, b2: int|
            0 <= a2 < sr.len() && sr[a2].alive && 0 <= b2 < sr[a2].body.len()
                implies #[trigger] board1[idx_of(sr[a2].body[b2], w)] == sr[a2].id by {
            assert(sr[a2].id >= ID_MIN);
            lemma_idx_in_range(w, h, sr[a2].body[b2]);
            if idx_of(sr[a2].body[b2], w) == c {
                assert(board0[idx_of(sr[a2].body[b2], w)] == sr[a2].id);
                assert(board0[c] == 0);
                assert(false);
            }
        }
        assert forall|k2: int|
            0 <= k2 < pushed.len() implies #[trigger] board1[idx_of(pushed[k2], w)] == FOOD_ID by {
            lemma_idx_in_range(w, h, pushed[k2]);
            if k2 < kept.len() {
                assert(board0[idx_of(kept[k2], w)] == FOOD_ID);
                if idx_of(kept[k2], w) == c {
                    assert(board0[c] == 0);
                    assert(false);
                }
            } else {
                assert(pushed[k2] == t);
            }
        }
        assert forall|x: int, y: int|
            0 <= x < w && 0 <= y < h && #[trigger] board1[y * w + x] != 0 implies food_at(
            pushed,
            x,
            y,
        ) || exists|i3: int|
            0 <= i3 < sr.len() && sr[i3].alive && covers(
                #[trigger] sr[i3],
                Tile { x: x as u32, y: y as u32 },
            ) by {
            let t0 = Tile { x: x as u32, y: y as u32 };
            lemma_idx_in_range(w, h, t0);
            assert(idx_of(t0, w) == y * w + x);
            if y * w + x == c {
                lemma_idx_injective(w, h, t0, t);
                assert(pushed[kept.len() as int] == t);
                assert(food_at(pushed, x, y));
            } else {
                assert(board0[y * w + x] != 0);
                if food_at(kept, x, y) {
                    let m = choose|m: int| 0 <= m < kept.len() && kept[m].x == x && kept[m].y == y;
                    assert(pushed[m] == kept[m]);
                    assert(food_at(pushed, x, y));
                }
            }
        }
    }
}

} // verus!

verus! {

/// Law: every board cell of a well-formed game holds exactly one occupant —
/// nothing, one food pellet, or one live player whose id the cell carries;
/// never two.
#[verifier::rlimit(100)]
pub proof fn lemma_board_partition(g: GameV, x: int, y: int)
    requires
        wf(g),
        0 <= x < g.width,
        0 <= y < g.height,
    ensures
        ({
            let v = g.board[y * g.width + x];
            let t = Tile { x: x as u32, y: y as u32 };
            ||| (v == 0 && !food_at(g.food, x, y) && forall|i: int|
                0 <= i < g.players.len() && g.players[i].alive ==> !covers(#[trigger] g.players[i], t))
            ||| (v == FOOD_ID && food_at(g.food, x, y) && forall|i: int|
                0 <= i < g.players.len() && g.players[i].alive ==> !covers(#[trigger] g.players[i], t))
            ||| (v >= ID_MIN && !food_at(g.food, x, y) && exists|i: int|
                0 <= i < g.players.len() && g.players[i].alive && covers(#[trigger] g.players[i], t)
                    && g.players[i].id == v && (forall|i2: int|
                    0 <= i2 < g.players.len() && g.players[i2].alive && covers(
                        #[trigger] g.players[i2],
                        t,
                    ) ==> i2 == i))
        }),
{
    let v = g.board[y * g.width + x];
    let t = Tile { x: x as u32, y: y as u32 };
    lemma_idx_in_range(g.width, g.height, t);
    assert(idx_of(t, g.width) == y * g.width + x);
    if v == 0 {
        if food_at(g.food, x, y) {
            let m = choose|m: int| 0 <= m < g.food.len() && g.food[m].x == x && g.food[m].y == y;
            assert(g.food[m] == t);
            assert(g.board[idx_of(g.food[m], g.width)] == FOOD_ID);
            assert(false);
        }
        assert forall|i: int|
            0 <= i < g.players.len() && g.players[i].alive implies !covers(
            #[trigger] g.players[i],
            t,
        ) by {
            if covers(g.players[i], t) {
                let j = choose|j: int|
                    0 <= j < g.players[i].body.len() && g.players[i].body[j] == t;
                assert(g.board[idx_of(g.players[i].body[j], g.width)] == g.players[i].id);
                assert(g.players[i].id >= ID_MIN);
                assert(false);
            }
        }
    } else {
        assert forall|i: int|
            0 <= i < g.players.len() && g.players[i].alive && covers(#[trigger] g.players[i], t)
                implies g.board[y * g.width + x] == g.players[i].id && !food_at(g.food, x, y) by {
            let j = choose|j: int| 0 <= j < g.players[i].body.len() && g.players[i].body[j] == t;
            assert(g.board[idx_of(g.players[i].body[j], g.width)] == g.players[i].id);
            if food_at(g.food, x, y) {
                let m = choose|m: int|
                    0 <= m < g.food.len() && g.food[m].x == x && g.food[m].y == y;
                assert(g.food[m] == t);
                assert(!covers(g.players[i], g.food[m]));
                assert(false);
            }
        }
        if v == FOOD_ID {
            assert(food_at(g.food, x, y) || exists|i: int|
                0 <= i < g.players.len() && g.players[i].alive && covers(#[trigger] g.players[i], t));
            if !food_at(g.food, x, y) {
                let i = choose|i: int|
                    0 <= i < g.players.len() && g.players[i].alive && covers(
                        #[trigger] g.players[i],
                        t,
                    );
                assert(g.board[y * g.width + x] == g.players[i].id);
                assert(g.players[i].id >= ID_MIN);
                assert(false);
            }
            if food_at(g.food, x, y) {
                let m = choose|m: int|
                    0 <= m < g.food.len() && g.food[m].x == x && g.food[m].y == y;
                assert(g.food[m] == t);
                assert forall|i: int|
                    0 <= i < g.players.len() && g.players[i].alive implies !covers(
                    #[trigger] g.players[i],
                    t,
                ) by {
                    assert(!covers(g.players[i], g.food[m]));
                }
            }
        } else {
            assert(!food_at(g.food, x, y)) by {
                if food_at(g.food, x, y) {
                    let m = choose|m: int|
                        0 <= m < g.food.len() && g.food[m].x == x && g.food[m].y == y;
                    assert(g.food[m] == t);
                    assert(g.board[idx_of(g.food[m], g.width)] == FOOD_ID);
                    assert(false);
                }
            }
            let i = choose|i: int|
                0 <= i < g.players.len() && g.players[i].alive && covers(#[trigger] g.players[i], t);
            assert(g.board[y * g.width + x] == g.players[i].id);
            assert(g.players[i].id >= ID_MIN);
            assert forall|i2: int|
                0 <= i2 < g.players.len() && g.players[i2].alive && covers(
                    #[trigger] g.players[i2],
                    t,
                ) implies i2 == i by {
                if i2 != i {
                    assert(bodies_disjoint(g.players[i2], g.players[i]));
                    let j = choose|j: int|
                        0 <= j < g.players[i].body.len() && g.players[i].body[j] == t;
                    assert(covers(g.players[i2], g.players[i].body[j]));
                    assert(false);
                }
            }
        }
    }
}

/// Law: a live player that moves onto food has full health again, grows by
/// exactly one segment, and the pellet is gone from the food set (while the
/// eater stands on its cell).
pub proof fn lemma_eating(g0: GameV, g1: GameV, i: int)
    requires
        wf(g0),
        step_rel(g0, g1),
        0 <= i < g0.players.len(),
        g0.players[i].alive,
        eats(g0.players[i], g0.food, g0.width, g0.height),
    ensures
        g1.players[i].health == 100,
        g1.players[i].body.len() == g0.players[i].body.len() + 1,
        g1.players[i].body[0] == next_head(g0.players[i]),
        g1.players[i].alive ==> !food_at(g1.food, next_x(g0.players[i]), next_y(g0.players[i])),
{
    let ps = g0.players;
    let w = g0.width;
    let h = g0.height;
    let kept = food_after_eat(ps, g0.food, w, h);
    let nx = next_x(ps[i]);
    let ny = next_y(ps[i]);
    assert(g1.players[i] == stepped_pv(ps, i, g0.food, w, h));
    assert(moved_pv(ps[i], g0.food, w, h).body == seq![next_head(ps[i])] + ps[i].body);
    lemma_food_kept_props(ps, g0.food, w, h, g0.food.len() as int);
    assert(!food_at(kept, nx, ny)) by {
        if food_at(kept, nx, ny) {
            let m = choose|m: int| 0 <= m < kept.len() && kept[m].x == nx && kept[m].y == ny;
            let l = choose|l: int|
                0 <= l < g0.food.len() && g0.food[l] == kept[m] && !head_lands_on(
                    ps,
                    w,
                    h,
                    g0.food[l],
                );
            assert(next_head(ps[i]) == kept[m]);
            assert(head_lands_on(ps, w, h, g0.food[l]));
            assert(false);
        }
    }
    if g1.players[i].alive {
        if !(g1.food == kept) {
            let t = choose|t: Tile|
                g1.food == kept.push(t) && tile_in_bounds(t, w, h) && !cell_occupied(
                    stepped_roster(ps, g0.food, w, h),
                    kept,
                    t.x as int,
                    t.y as int,
                );
            assert(!food_at(g1.food, nx, ny)) by {
                if food_at(g1.food, nx, ny) {
                    let m = choose|m: int|
                        0 <= m < g1.food.len() && g1.food[m].x == nx && g1.food[m].y == ny;
                    if m < kept.len() {
                        assert(g1.food[m] == kept[m]);
                        assert(food_at(kept, nx, ny));
                        assert(false);
                    } else {
                        assert(g1.food[m] == t);
                        let sr = stepped_roster(ps, g0.food, w, h);
                        assert(sr[i].body[0] == next_head(ps[i]));
                        assert(covers(sr[i], Tile { x: t.x as u32, y: t.y as u32 }));
                        assert(cell_occupied(sr, kept, t.x as int, t.y as int));
                        assert(false);
                    }
                }
            }
        }
    }
}

/// Law: a live player that moves onto an empty in-bounds cell keeps its
/// length; its head advances and its tail cell is given up.
pub proof fn lemma_normal_move(g0: GameV, g1: GameV, i: int)
    requires
        wf(g0),
        step_rel(g0, g1),
        0 <= i < g0.players.len(),
        g0.players[i].alive,
        next_in_bounds(g0.players[i], g0.width, g0.height),
        !eats(g0.players[i], g0.food, g0.width, g0.height),
    ensures
        g1.players[i].body.len() == g0.players[i].body.len(),
        g1.players[i].body == seq![next_head(g0.players[i])] + g0.players[i].body.drop_last(),
        g1.players[i].health == g0.players[i].health - 1,
{
    assert(g1.players[i] == stepped_pv(g0.players, i, g0.food, g0.width, g0.height));
}

/// Law: a head that leaves the board kills its player, and a dead player no
/// longer moves: later ticks leave it exactly as it is.
pub proof fn lemma_wall_death(g0: GameV, g1: GameV, i: int)
    requires
        wf(g0),
        step_rel(g0, g1),
        0 <= i < g0.players.len(),
    ensures
        g0.players[i].alive && !next_in_bounds(g0.players[i], g0.width, g0.height)
            ==> !g1.players[i].alive,
        !g0.players[i].alive ==> g1.players[i] == g0.players[i],
{
    assert(g1.players[i] == stepped_pv(g0.players, i, g0.food, g0.width, g0.height));
}

/// Law: a live player whose health runs out without eating dies, and unless
/// a collision outranks it the recorded reason is starvation.
pub proof fn lemma_starvation(g0: GameV, g1: GameV, i: int)
    requires
        wf(g0),
        step_rel(g0, g1),
        0 <= i < g0.players.len(),
        g0.players[i].alive,
        g0.players[i].health == 1,
        !eats(g0.players[i], g0.food, g0.width, g0.height),
    ensures
        !g1.players[i].alive,
        !body_dead(g0.players, i, g0.food, g0.width, g0.height) && !h2h_dead(
            g0.players,
            i,
            g0.food,
            g0.width,
            g0.height,
        ) ==> g1.players[i].death_reason == DeathReason::Starve,
{
    assert(g1.players[i] == stepped_pv(g0.players, i, g0.food, g0.width, g0.height));
    assert(starve_marked(g0.players[i], g0.food, g0.width, g0.height));
}

/// Law: when two live players' moved heads land on one cell, the strictly
/// shorter one dies — eaten, unless a body collision outranks it — and equal
/// lengths kill both.
pub proof fn lemma_head_to_head(g0: GameV, g1: GameV, i: int, j: int)
    requires
        wf(g0),
        step_rel(g0, g1),
        0 <= i < g0.players.len(),
        0 <= j < g0.players.len(),
        i != j,
        g0.players[i].alive,
        g0.players[j].alive,
        moved_pv(g0.players[i], g0.food, g0.width, g0.height).body[0] == moved_pv(
            g0.players[j],
            g0.food,
            g0.width,
            g0.height,
        ).body[0],
    ensures
        ({
            let li = moved_pv(g0.players[i], g0.food, g0.width, g0.height).body.len();
            let lj = moved_pv(g0.players[j], g0.food, g0.width, g0.height).body.len();
            &&& (li < lj ==> !g1.players[i].alive)
            &&& (li < lj && !body_dead(g0.players, i, g0.food, g0.width, g0.height)
                ==> g1.players[i].death_reason == DeathReason::Eaten)
            &&& (li == lj ==> !g1.players[i].alive && !g1.players[j].alive)
        }),
{
    let ps = g0.players;
    let w = g0.width;
    let h = g0.height;
    let li = moved_pv(ps[i], g0.food, w, h).body.len();
    let lj = moved_pv(ps[j], g0.food, w, h).body.len();
    assert(g1.players[i] == stepped_pv(ps, i, g0.food, w, h));
    assert(g1.players[j] == stepped_pv(ps, j, g0.food, w, h));
    if lj >= li {
        assert(h2h_dead(ps, i, g0.food, w, h));
    }
    if li >= lj {
        assert(h2h_dead(ps, j, g0.food, w, h));
    }
}

/// Law: after a tick the game is over exactly when one player or fewer is
/// left (multi-player), or none (single-player).
pub proof fn lemma_over_iff(g0: GameV, g1: GameV)
    requires
        wf(g0),
        step_rel(g0, g1),
    ensures
        g1.over <==> over_cond(alive_count(g1.players), g1.num_players),
{
}

/// Law: on a board with no free cell, a tick spawns nothing: the food set is
/// exactly what eating left.
pub proof fn lemma_full_board_skips_spawn(g0: GameV, g1: GameV)
    requires
        wf(g0),
        step_rel(g0, g1),
        board_full(
            stepped_roster(g0.players, g0.food, g0.width, g0.height),
            food_after_eat(g0.players, g0.food, g0.width, g0.height),
            g0.width,
            g0.height,
        ),
    ensures
        g1.food == food_after_eat(g0.players, g0.food, g0.width, g0.height),
{
}

} // verus!
