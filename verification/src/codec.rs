//! Observation/action codec: a per-agent multi-channel tensor centered on
//! the viewer's head, written under a coordinate canonicalization, and the
//! exact inverse transform for decoding a policy's action.

use vstd::prelude::*;

use crate::game::{alive_count, views_of, Player, PlayerV, Tile, MAX_DIM};

verus! {

/// Channels of one observation tensor.
pub const NUM_LAYERS: usize = 17;

/// Width of one tensor layer.
pub const LAYER_WIDTH: usize = 23;

/// Height of one tensor layer.
pub const LAYER_HEIGHT: usize = 23;

/// Cells of one tensor layer.
pub const LAYER_CELLS: usize = 529;

/// Cells of one whole observation tensor.
pub const OBS_SIZE: usize = 8993;

/// The coordinate transform active for one (viewer, tick): either the
/// hash-driven axis flips of the fixed-orientation scheme, or one of the
/// four symmetry maps that turn the viewer's heading "up".
#[derive(Clone, Copy, PartialEq, Eq, Structural, Debug)]
pub struct Frame {
    pub head: Tile,
    pub flip_x: bool,
    pub flip_y: bool,
    pub sym_flip_y: bool,
    pub transpose: bool,
    pub transpose_rotate: bool,
}

/// The 2-bit orientation code: zero under a fixed request, else a mix of
/// the game id, the viewer id and the turn, so the frame varies from tick
/// to tick but is the same for every observer of one (game, player, turn).
pub open spec fn orientation_spec(game_id: u32, turn: u32, player_id: u32, fixed: bool) -> u32 {
    if fixed {
        0
    } else {
        ((((game_id as int) * 2654435761 + (player_id as int) * 40503 + (turn as int) * 69069)
            % 4294967296) as u32)
    }
}

/// Which transform a viewer gets: under symmetry canonicalization the
/// neck-to-head vector picks one of four maps (and the orientation bits are
/// ignored); otherwise bit 0 flips x and bit 1 flips y.
pub open spec fn frame_of(head: Tile, neck: Tile, ori: u32, use_symmetry: bool) -> Frame {
    if use_symmetry {
        let dx = head.x - neck.x;
        let dy = head.y - neck.y;
        Frame {
            head: head,
            flip_x: false,
            flip_y: false,
            sym_flip_y: dx == 0 && dy == 1,
            transpose: dx == -1,
            transpose_rotate: dx == 1,
        }
    } else {
        Frame {
            head: head,
            flip_x: ori & 1 != 0,
            flip_y: ori & 2 != 0,
            sym_flip_y: false,
            transpose: false,
            transpose_rotate: false,
        }
    }
}

/// The centered x before any transpose: the flip negates the offset from
/// the viewer's head.
pub open spec fn base_x(f: Frame, t: Tile) -> int {
    if f.flip_x {
        11 - (t.x - f.head.x)
    } else {
        (t.x - f.head.x) + 11
    }
}

/// The centered y before any transpose.
pub open spec fn base_y(f: Frame, t: Tile) -> int {
    if f.flip_y {
        11 - (t.y - f.head.y)
    } else {
        (t.y - f.head.y) + 11
    }
}

/// The tensor column a tile lands in.
pub open spec fn tx_of(f: Frame, t: Tile) -> int {
    if f.transpose || f.transpose_rotate {
        base_y(f, t)
    } else {
        base_x(f, t)
    }
}

/// The tensor row a tile lands in.
pub open spec fn ty_of(f: Frame, t: Tile) -> int {
    if f.transpose {
        base_x(f, t)
    } else if f.transpose_rotate {
        22 - base_x(f, t)
    } else if f.sym_flip_y {
        22 - base_y(f, t)
    } else {
        base_y(f, t)
    }
}

/// Whether the tile lands inside the fixed tensor window at all; what falls
/// outside is simply not written.
pub open spec fn in_tensor(f: Frame, t: Tile) -> bool {
    0 <= tx_of(f, t) < 23 && 0 <= ty_of(f, t) < 23
}

/// Flat index of one tensor cell.
pub open spec fn obs_idx(l: int, x: int, y: int) -> int {
    l * 529 + x * 23 + y
}

/// Clamp an accumulated non-negative total into a byte: tensor cells
/// accumulate, they never wrap.
pub open spec fn sat255(v: int) -> u8 {
    if v > 255 {
        255 as u8
    } else {
        v as u8
    }
}

/// Whether the tile's image under the frame is exactly this window cell.
pub open spec fn hits(f: Frame, t: Tile, cx: int, cy: int) -> bool {
    tx_of(f, t) == cx && ty_of(f, t) == cy
}

/// The one-hot alive-count slot: alive_count minus two, clamped to the
/// seven available layers.
pub open spec fn sel_layer(alive: int) -> int {
    if alive <= 2 {
        0
    } else if alive >= 9 {
        6
    } else {
        alive - 2
    }
}

/// What one body segment (body index j) adds to a per-segment channel at a
/// window cell: the body mask, the distance from the tail (topped at 255),
/// or the opposing length surplus or deficit.
pub open spec fn seg_contrib(
    l: int,
    p: PlayerV,
    vlen: int,
    is_viewer: bool,
    j: int,
    f: Frame,
    cx: int,
    cy: int,
) -> int {
    if !hits(f, p.body[j], cx, cy) {
        0
    } else if l == 1 {
        1
    } else if l == 2 {
        let d = p.body.len() - 1 - j;
        if d > 255 {
            255
        } else {
            d
        }
    } else if l == 8 {
        if !is_viewer && p.body.len() >= vlen {
            let su = p.body.len() - vlen + 1;
            if su > 255 {
                255
            } else {
                su
            }
        } else {
            0
        }
    } else if l == 9 {
        if !is_viewer && p.body.len() < vlen {
            let d = vlen - p.body.len();
            if d > 255 {
                255
            } else {
                d
            }
        } else {
            0
        }
    } else {
        0
    }
}

/// The total the first bi tail-first segments of one body add to a
/// per-segment channel at a window cell.
pub open spec fn seg_sum(
    l: int,
    p: PlayerV,
    vlen: int,
    is_viewer: bool,
    f: Frame,
    cx: int,
    cy: int,
    bi: int,
) -> int
    decreases bi,
{
    if bi <= 0 {
        0
    } else {
        seg_sum(l, p, vlen, is_viewer, f, cx, cy, bi - 1) + seg_contrib(
            l,
            p,
            vlen,
            is_viewer,
            p.body.len() - bi,
            f,
            cx,
            cy,
        )
    }
}

/// Everything one player adds to a per-player channel at a window cell:
/// health at a live head, the per-segment sums, the longer-opponent mark at
/// an opposing head, and the doubled-tail mark of a just-grown snake.
/// A dead player adds nothing anywhere.
pub open spec fn player_contrib(
    l: int,
    p: PlayerV,
    vlen: int,
    is_viewer: bool,
    f: Frame,
    cx: int,
    cy: int,
) -> int {
    if !p.alive {
        0
    } else if l == 0 {
        if hits(f, p.body[0], cx, cy) {
            p.health
        } else {
            0
        }
    } else if l == 3 {
        if !is_viewer && p.body.len() >= vlen && hits(f, p.body[0], cx, cy) {
            1
        } else {
            0
        }
    } else if l == 7 {
        if p.body.len() >= 2 && p.body[p.body.len() - 1] == p.body[p.body.len() - 2] && hits(
            f,
            p.body[p.body.len() - 2],
            cx,
            cy,
        ) {
            1
        } else {
            0
        }
    } else if l == 1 || l == 2 || l == 8 || l == 9 {
        seg_sum(l, p, vlen, is_viewer, f, cx, cy, p.body.len() as int)
    } else {
        0
    }
}

/// The roster total of a per-player channel over the first i players.
pub open spec fn roster_sum(
    l: int,
    ps: Seq<PlayerV>,
    viewer: int,
    vlen: int,
    f: Frame,
    cx: int,
    cy: int,
    i: int,
) -> int
    decreases i,
{
    if i <= 0 {
        0
    } else {
        roster_sum(l, ps, viewer, vlen, f, cx, cy, i - 1) + player_contrib(
            l,
            ps[i - 1],
            vlen,
            i - 1 == viewer,
            f,
            cx,
            cy,
        )
    }
}

/// How many of the first k pellets land on this window cell.
pub open spec fn food_sum(food: Seq<Tile>, f: Frame, cx: int, cy: int, k: int) -> int
    decreases k,
{
    if k <= 0 {
        0
    } else {
        food_sum(food, f, cx, cy, k - 1) + if hits(f, food[k - 1], cx, cy) {
            1 as int
        } else {
            0 as int
        }
    }
}

/// How many board cells of column x, in rows below y, land on this window
/// cell.
pub open spec fn col_sum(x: int, f: Frame, cx: int, cy: int, y: int) -> int
    decreases y,
{
    if y <= 0 {
        0
    } else {
        col_sum(x, f, cx, cy, y - 1) + if hits(
            f,
            Tile { x: x as u32, y: (y - 1) as u32 },
            cx,
            cy,
        ) {
            1 as int
        } else {
            0 as int
        }
    }
}

/// How many board cells of the first x full columns land on this window
/// cell.
pub open spec fn cols_sum(h: u32, f: Frame, cx: int, cy: int, x: int) -> int
    decreases x,
{
    if x <= 0 {
        0
    } else {
        cols_sum(h, f, cx, cy, x - 1) + col_sum(x - 1, f, cx, cy, h as int)
    }
}

/// The accumulated total of one (channel, window cell) pair, per the
/// channel's meaning: the saturation of this total is exactly the byte the
/// encoder must hold there, and it is 0 wherever no entity maps.
pub open spec fn cell_total(
    ps: Seq<PlayerV>,
    food: Seq<Tile>,
    w: u32,
    h: u32,
    viewer: int,
    f: Frame,
    l: int,
    cx: int,
    cy: int,
) -> int {
    let vlen = ps[viewer].body.len() as int;
    let sel = sel_layer(alive_count(ps));
    if l == 6 {
        if hits(f, ps[viewer].body[0], cx, cy) {
            1
        } else {
            0
        }
    } else if l == 4 {
        food_sum(food, f, cx, cy, food.len() as int)
    } else if l == 5 || l == 10 + sel {
        cols_sum(h, f, cx, cy, w as int)
    } else if 10 <= l && l < 17 {
        0
    } else {
        roster_sum(l, ps, viewer, vlen, f, cx, cy, ps.len() as int)
    }
}

/// What one write adds to each (channel, window cell): its value at the
/// written tile's image on its own channel, nothing anywhere else.
pub open spec fn write_contrib(
    f: Frame,
    t: Tile,
    l: int,
    v: int,
    l2: int,
    cx: int,
    cy: int,
) -> int {
    if l2 == l && hits(f, t, cx, cy) {
        v
    } else {
        0
    }
}

/// What the encoder guarantees of a written tensor: the right size, and
/// every (channel, window cell) byte equal to the saturated accumulated
/// total of the entities spec'd for that channel whose transformed tile
/// maps there — health summed at live heads, the body mask, the tail
/// distances, the opponent comparisons, the food, bounds and head masks,
/// the doubled-tail marks, and the one-hot alive-count band — with 0
/// wherever nothing maps.
pub open spec fn obs_matches(
    ps: Seq<PlayerV>,
    food: Seq<Tile>,
    w: u32,
    h: u32,
    viewer: int,
    ori: u32,
    sym: bool,
    obs: Seq<u8>,
) -> bool {
    let f = frame_of(ps[viewer].body[0], ps[viewer].body[1], ori, sym);
    &&& obs.len() == OBS_SIZE
    &&& in_tensor(f, ps[viewer].body[0])
    &&& forall|l: int, cx: int, cy: int|
        0 <= l < 17 && 0 <= cx < 23 && 0 <= cy < 23 ==> #[trigger] obs[obs_idx(l, cx, cy)]
            == sat255(cell_total(ps, food, w, h, viewer, f, l, cx, cy))
}

// ---------------------------------------------------------------------------
// Action decoding and the round trip.
// ---------------------------------------------------------------------------

/// The canonical order of the four discrete actions.
pub open spec fn action_char(i: int) -> char {
    if i == 0 {
        'u'
    } else if i == 1 {
        'd'
    } else if i == 2 {
        'l'
    } else {
        'r'
    }
}

pub open spec fn transpose_map(c: char) -> char {
    if c == 'l' {
        'u'
    } else if c == 'r' {
        'd'
    } else if c == 'u' {
        'l'
    } else if c == 'd' {
        'r'
    } else {
        c
    }
}

pub open spec fn transpose_rotate_map(c: char) -> char {
    if c == 'l' {
        'u'
    } else if c == 'r' {
        'd'
    } else if c == 'u' {
        'r'
    } else if c == 'd' {
        'l'
    } else {
        c
    }
}

pub open spec fn flip_y_map(c: char) -> char {
    if c == 'u' {
        'd'
    } else if c == 'd' {
        'u'
    } else {
        c
    }
}

pub open spec fn lr_swap(c: char) -> char {
    if c == 'l' {
        'r'
    } else if c == 'r' {
        'l'
    } else {
        c
    }
}

pub open spec fn ud_swap(c: char) -> char {
    if c == 'u' {
        'd'
    } else if c == 'd' {
        'u'
    } else {
        c
    }
}

/// The inverse transform applied to a canonical action: the symmetry map of
/// the frame, then the fixed-orientation bit swaps.
pub open spec fn decode_spec(f: Frame, c: char) -> char {
    let c1 = if f.transpose {
        transpose_map(c)
    } else {
        c
    };
    let c2 = if f.transpose_rotate {
        transpose_rotate_map(c1)
    } else {
        c1
    };
    let c3 = if f.sym_flip_y {
        flip_y_map(c2)
    } else {
        c2
    };
    let c4 = if f.flip_x {
        lr_swap(c3)
    } else {
        c3
    };
    if f.flip_y {
        ud_swap(c4)
    } else {
        c4
    }
}

/// The viewer's true heading, read from the neck-to-head vector.
pub open spec fn heading_of(head: Tile, neck: Tile) -> char {
    if head.x - neck.x == 1 {
        'r'
    } else if head.x - neck.x == -1 {
        'l'
    } else if head.y - neck.y == 1 {
        'd'
    } else {
        'u'
    }
}

/// Head and neck sit one step apart on one axis.
pub open spec fn unit_adjacent(head: Tile, neck: Tile) -> bool {
    ||| (head.x - neck.x == 1 && head.y == neck.y)
    ||| (head.x - neck.x == -1 && head.y == neck.y)
    ||| (head.y - neck.y == 1 && head.x == neck.x)
    ||| (head.y - neck.y == -1 && head.x == neck.x)
}

/// The canonical "move forward" action in the encoded frame: "up" under
/// symmetry canonicalization, else the heading as the flipped frame shows
/// it.
pub open spec fn forward_action_spec(head: Tile, neck: Tile, ori: u32, sym: bool) -> char {
    if sym {
        'u'
    } else {
        let hd = heading_of(head, neck);
        let c1 = if ori & 1 != 0 {
            lr_swap(hd)
        } else {
            hd
        };
        if ori & 2 != 0 {
            ud_swap(c1)
        } else {
            c1
        }
    }
}

/// Law: decoding the canonical "move forward" action under either
/// canonicalization scheme returns the viewer's true current heading.
pub proof fn lemma_action_round_trip(head: Tile, neck: Tile, ori: u32, use_symmetry: bool)
    requires
        unit_adjacent(head, neck),
    ensures
        decode_spec(
            frame_of(head, neck, ori, use_symmetry),
            forward_action_spec(head, neck, ori, use_symmetry),
        ) == heading_of(head, neck),
{
}

/// Compute the frame for one (viewer, tick).
pub fn compute_frame(head: Tile, neck: Tile, ori: u32, use_symmetry: bool) -> (f: Frame)
    ensures
        f == frame_of(head, neck, ori, use_symmetry),
{
    if use_symmetry {
        let dx: i64 = head.x as i64 - neck.x as i64;
        let dy: i64 = head.y as i64 - neck.y as i64;
        Frame {
            head: head,
            flip_x: false,
            flip_y: false,
            sym_flip_y: dx == 0 && dy == 1,
            transpose: dx == -1,
            transpose_rotate: dx == 1,
        }
    } else {
        Frame {
            head: head,
            flip_x: ori & 1 != 0,
            flip_y: ori & 2 != 0,
            sym_flip_y: false,
            transpose: false,
            transpose_rotate: false,
        }
    }
}

/// The orientation code for one (game, player, turn).
pub fn orientation(game_id: u32, turn: u32, player_id: u32, fixed: bool) -> (r: u32)
    ensures
        r == orientation_spec(game_id, turn, player_id, fixed),
{
    if fixed {
        0
    } else {
        proof {
            assert((game_id as int) * 2654435761 + (player_id as int) * 40503 + (turn as int)
                * 69069 <= 0xFFFF_FFFFint * 2654545333) by (nonlinear_arith)
                requires
                    game_id <= 0xFFFF_FFFFu32,
                    player_id <= 0xFFFF_FFFFu32,
                    turn <= 0xFFFF_FFFFu32,
            ;
        }
        let v: u64 = (game_id as u64) * 2654435761u64 + (player_id as u64) * 40503u64 + (turn
            as u64) * 69069u64;
        (v % 4294967296u64) as u32
    }
}

/// Decode one buffered action index into a board-relative move for the
/// given viewer, inverting whatever transform its frame applied.
pub fn decode_action(action_index: u8, head: Tile, neck: Tile, ori: u32, use_symmetry: bool) -> (c:
    char)
    requires
        action_index < 4,
    ensures
        c == decode_spec(
            frame_of(head, neck, ori, use_symmetry),
            action_char(action_index as int),
        ),
{
    let f = compute_frame(head, neck, ori, use_symmetry);
    let mut c: char = if action_index == 0 {
        'u'
    } else if action_index == 1 {
        'd'
    } else if action_index == 2 {
        'l'
    } else {
        'r'
    };
    if f.transpose {
        c = if c == 'l' {
            'u'
        } else if c == 'r' {
            'd'
        } else if c == 'u' {
            'l'
        } else {
            'r'
        };
    }
    if f.transpose_rotate {
        c = if c == 'l' {
            'u'
        } else if c == 'r' {
            'd'
        } else if c == 'u' {
            'r'
        } else {
            'l'
        };
    }
    if f.sym_flip_y {
        c = if c == 'u' {
            'd'
        } else if c == 'd' {
            'u'
        } else {
            c
        };
    }
    if f.flip_x {
        c = if c == 'l' {
            'r'
        } else if c == 'r' {
            'l'
        } else {
            c
        };
    }
    if f.flip_y {
        c = if c == 'u' {
            'd'
        } else if c == 'd' {
            'u'
        } else {
            c
        };
    }
    c
}

} // verus!

verus! {

/// The tensor cell a tile lands in, if it lands inside the window.
fn transform(f: Frame, t: Tile) -> (r: Option<(usize, usize)>)
    ensures
        r.is_some() == in_tensor(f, t),
        in_tensor(f, t) ==> r == Some(((tx_of(f, t) as usize), (ty_of(f, t) as usize))),
{
    let dx: i64 = t.x as i64 - f.head.x as i64;
    let dy: i64 = t.y as i64 - f.head.y as i64;
    let bx: i64 = if f.flip_x {
        11 - dx
    } else {
        dx + 11
    };
    let by: i64 = if f.flip_y {
        11 - dy
    } else {
        dy + 11
    };
    let tx: i64 = if f.transpose || f.transpose_rotate {
        by
    } else {
        bx
    };
    let ty: i64 = if f.transpose {
        bx
    } else if f.transpose_rotate {
        22 - bx
    } else if f.sym_flip_y {
        22 - by
    } else {
        by
    };
    proof {
        assert(bx == base_x(f, t) && by == base_y(f, t));
        assert(tx == tx_of(f, t) && ty == ty_of(f, t));
    }
    if tx >= 0 && tx < 23 && ty >= 0 && ty < 23 {
        Some((tx as usize, ty as usize))
    } else {
        None
    }
}

/// Two distinct (channel, window cell) triples have distinct flat indices.
proof fn lemma_obs_idx_distinct(l1: int, x1: int, y1: int, l2: int, x2: int, y2: int)
    requires
        0 <= l1 < 17,
        0 <= x1 < 23,
        0 <= y1 < 23,
        0 <= l2 < 17,
        0 <= x2 < 23,
        0 <= y2 < 23,
        !(l1 == l2 && x1 == x2 && y1 == y2),
    ensures
        obs_idx(l1, x1, y1) != obs_idx(l2, x2, y2),
{
    assert(0 <= x1 * 23 + y1 < 529);
    assert(0 <= x2 * 23 + y2 < 529);
    if obs_idx(l1, x1, y1) == obs_idx(l2, x2, y2) {
        assert(l1 == l2);
        assert(x1 * 23 + y1 == x2 * 23 + y2);
        assert(x1 == x2 && y1 == y2);
    }
}

/// Accumulate one write and carry the running per-cell totals: afterwards
/// every (channel, window cell) byte is the saturation of its old total
/// plus this write's contribution. What falls outside the window is not
/// written, and a cell tops out instead of wrapping.
fn obs_accum(
    obs: &mut Vec<u8>,
    f: Frame,
    t: Tile,
    l: usize,
    v: u8,
    Ghost(p): Ghost<spec_fn(int, int, int) -> int>,
)
    requires
        old(obs)@.len() == OBS_SIZE,
        l < NUM_LAYERS,
        forall|l2: int, cx: int, cy: int|
            0 <= l2 < 17 && 0 <= cx < 23 && 0 <= cy < 23 ==> #[trigger] old(obs)@[obs_idx(
                l2,
                cx,
                cy,
            )] == sat255(p(l2, cx, cy)),
        in_tensor(f, t) ==> p(l as int, tx_of(f, t), ty_of(f, t)) >= 0,
    ensures
        final(obs)@.len() == OBS_SIZE,
        forall|l2: int, cx: int, cy: int|
            0 <= l2 < 17 && 0 <= cx < 23 && 0 <= cy < 23 ==> #[trigger] final(obs)@[obs_idx(
                l2,
                cx,
                cy,
            )] == sat255(p(l2, cx, cy) + write_contrib(f, t, l as int, v as int, l2, cx, cy)),
{
    match transform(f, t) {
        Some((tx, ty)) => {
            let c: usize = l * 529 + tx * 23 + ty;
            proof {
                assert(tx * 23 + ty < 529);
                assert(c == obs_idx(l as int, tx as int, ty as int));
                assert(c < OBS_SIZE);
            }
            let cur = obs[c];
            let nv: u8 = if cur as u32 + v as u32 > 255 {
                255
            } else {
                cur + v
            };
            obs[c] = nv;
            proof {
                let a = p(l as int, tx as int, ty as int);
                assert(cur == sat255(a));
                assert(nv == sat255(a + v));
                assert forall|l2: int, cx: int, cy: int|
                    0 <= l2 < 17 && 0 <= cx < 23 && 0 <= cy < 23 implies #[trigger] obs@[obs_idx(
                    l2,
                    cx,
                    cy,
                )] == sat255(p(l2, cx, cy) + write_contrib(f, t, l as int, v as int, l2, cx, cy)) by {
                    assert(0 <= obs_idx(l2, cx, cy) < OBS_SIZE);
                    if l2 == l as int && cx == tx as int && cy == ty as int {
                        assert(hits(f, t, cx, cy));
                    } else {
                        lemma_obs_idx_distinct(l as int, tx as int, ty as int, l2, cx, cy);
                        assert(obs@[obs_idx(l2, cx, cy)] == old(obs)@[obs_idx(l2, cx, cy)]);
                        assert(!(l2 == l as int && hits(f, t, cx, cy)));
                    }
                }
            }
        },
        None => {
            proof {
                assert forall|l2: int, cx: int, cy: int|
                    0 <= l2 < 17 && 0 <= cx < 23 && 0 <= cy < 23 implies #[trigger] obs@[obs_idx(
                    l2,
                    cx,
                    cy,
                )] == sat255(p(l2, cx, cy) + write_contrib(f, t, l as int, v as int, l2, cx, cy)) by {
                    if l2 == l as int && hits(f, t, cx, cy) {
                        assert(in_tensor(f, t));
                    }
                }
            }
        },
    }
}

// ---------------------------------------------------------------------------
// The running totals at each stage of the encoder, and their step facts.
// ---------------------------------------------------------------------------

/// The totals after the head mask and the first i players' channels.
spec fn partial_players(
    ps: Seq<PlayerV>,
    viewer: int,
    vlen: int,
    f: Frame,
    l: int,
    cx: int,
    cy: int,
    i: int,
) -> int {
    if l == 6 {
        if hits(f, ps[viewer].body[0], cx, cy) {
            1
        } else {
            0
        }
    } else if l == 4 || l == 5 || (10 <= l && l < 17) {
        0
    } else {
        roster_sum(l, ps, viewer, vlen, f, cx, cy, i)
    }
}

/// One live player's totals after its head-health write and bi processed
/// tail-first segments; the longer-opponent mark comes after the segments.
spec fn player_partial(
    l: int,
    p: PlayerV,
    vlen: int,
    is_viewer: bool,
    f: Frame,
    cx: int,
    cy: int,
    bi: int,
) -> int {
    if l == 0 {
        if hits(f, p.body[0], cx, cy) {
            p.health
        } else {
            0
        }
    } else if l == 7 {
        if bi >= 2 && p.body.len() >= 2 && p.body[p.body.len() - 1] == p.body[p.body.len() - 2]
            && hits(f, p.body[p.body.len() - 2], cx, cy) {
            1
        } else {
            0
        }
    } else if l == 1 || l == 2 || l == 8 || l == 9 {
        seg_sum(l, p, vlen, is_viewer, f, cx, cy, bi)
    } else {
        0
    }
}

/// The totals while player i (alive) is being written.
spec fn partial_inner(
    ps: Seq<PlayerV>,
    viewer: int,
    vlen: int,
    f: Frame,
    l: int,
    cx: int,
    cy: int,
    i: int,
    bi: int,
) -> int {
    if l == 6 || l == 4 || l == 5 || (10 <= l && l < 17) {
        partial_players(ps, viewer, vlen, f, l, cx, cy, i)
    } else {
        roster_sum(l, ps, viewer, vlen, f, cx, cy, i) + player_partial(
            l,
            ps[i],
            vlen,
            i == viewer,
            f,
            cx,
            cy,
            bi,
        )
    }
}

/// The totals after every player and the first k pellets.
spec fn partial_food(
    ps: Seq<PlayerV>,
    food: Seq<Tile>,
    viewer: int,
    vlen: int,
    f: Frame,
    l: int,
    cx: int,
    cy: int,
    k: int,
) -> int {
    if l == 4 {
        food_sum(food, f, cx, cy, k)
    } else {
        partial_players(ps, viewer, vlen, f, l, cx, cy, ps.len() as int)
    }
}

/// The totals after every player, every pellet, x full board columns and y
/// rows of column x.
spec fn partial_cells(
    ps: Seq<PlayerV>,
    food: Seq<Tile>,
    h: u32,
    viewer: int,
    vlen: int,
    f: Frame,
    sel: int,
    l: int,
    cx: int,
    cy: int,
    x: int,
    y: int,
) -> int {
    if l == 5 || l == 10 + sel {
        cols_sum(h, f, cx, cy, x) + col_sum(x, f, cx, cy, y)
    } else {
        partial_food(ps, food, viewer, vlen, f, l, cx, cy, food.len() as int)
    }
}

proof fn lemma_seg_sum_nonneg(
    l: int,
    p: PlayerV,
    vlen: int,
    isv: bool,
    f: Frame,
    cx: int,
    cy: int,
    bi: int,
)
    requires
        0 <= bi <= p.body.len(),
    ensures
        seg_sum(l, p, vlen, isv, f, cx, cy, bi) >= 0,
    decreases bi,
{
    if bi > 0 {
        lemma_seg_sum_nonneg(l, p, vlen, isv, f, cx, cy, bi - 1);
    }
}

proof fn lemma_roster_sum_nonneg(
    l: int,
    ps: Seq<PlayerV>,
    viewer: int,
    vlen: int,
    f: Frame,
    cx: int,
    cy: int,
    i: int,
)
    requires
        0 <= i <= ps.len(),
        forall|k: int| 0 <= k < ps.len() ==> (#[trigger] ps[k]).health >= 0,
    ensures
        roster_sum(l, ps, viewer, vlen, f, cx, cy, i) >= 0,
    decreases i,
{
    if i > 0 {
        lemma_roster_sum_nonneg(l, ps, viewer, vlen, f, cx, cy, i - 1);
        lemma_seg_sum_nonneg(
            l,
            ps[i - 1],
            vlen,
            i - 1 == viewer,
            f,
            cx,
            cy,
            ps[i - 1].body.len() as int,
        );
    }
}

proof fn lemma_food_sum_nonneg(food: Seq<Tile>, f: Frame, cx: int, cy: int, k: int)
    ensures
        food_sum(food, f, cx, cy, k) >= 0,
    decreases k,
{
    if k > 0 {
        lemma_food_sum_nonneg(food, f, cx, cy, k - 1);
    }
}

proof fn lemma_col_sum_nonneg(x: int, f: Frame, cx: int, cy: int, y: int)
    ensures
        col_sum(x, f, cx, cy, y) >= 0,
    decreases y,
{
    if y > 0 {
        lemma_col_sum_nonneg(x, f, cx, cy, y - 1);
    }
}

proof fn lemma_cols_sum_nonneg(h: u32, f: Frame, cx: int, cy: int, x: int)
    ensures
        cols_sum(h, f, cx, cy, x) >= 0,
    decreases x,
{
    if x > 0 {
        lemma_cols_sum_nonneg(h, f, cx, cy, x - 1);
        lemma_col_sum_nonneg(x - 1, f, cx, cy, h as int);
    }
}

/// The stage totals are never negative (pointwise helpers for the writes).
proof fn lemma_partial_inner_nonneg(
    ps: Seq<PlayerV>,
    viewer: int,
    vlen: int,
    f: Frame,
    l: int,
    cx: int,
    cy: int,
    i: int,
    bi: int,
)
    requires
        0 <= i < ps.len(),
        0 <= bi <= ps[i].body.len(),
        forall|k: int| 0 <= k < ps.len() ==> (#[trigger] ps[k]).health >= 0,
    ensures
        partial_inner(ps, viewer, vlen, f, l, cx, cy, i, bi) >= 0,
        partial_players(ps, viewer, vlen, f, l, cx, cy, i) >= 0,
{
    lemma_roster_sum_nonneg(l, ps, viewer, vlen, f, cx, cy, i);
    lemma_seg_sum_nonneg(l, ps[i], vlen, i == viewer, f, cx, cy, bi);
}

proof fn lemma_partial_food_nonneg(
    ps: Seq<PlayerV>,
    food: Seq<Tile>,
    viewer: int,
    vlen: int,
    f: Frame,
    l: int,
    cx: int,
    cy: int,
    k: int,
)
    requires
        forall|a: int| 0 <= a < ps.len() ==> (#[trigger] ps[a]).health >= 0,
    ensures
        partial_food(ps, food, viewer, vlen, f, l, cx, cy, k) >= 0,
{
    lemma_roster_sum_nonneg(l, ps, viewer, vlen, f, cx, cy, ps.len() as int);
    lemma_food_sum_nonneg(food, f, cx, cy, k);
}

proof fn lemma_partial_cells_nonneg(
    ps: Seq<PlayerV>,
    food: Seq<Tile>,
    h: u32,
    viewer: int,
    vlen: int,
    f: Frame,
    sel: int,
    l: int,
    cx: int,
    cy: int,
    x: int,
    y: int,
)
    requires
        forall|a: int| 0 <= a < ps.len() ==> (#[trigger] ps[a]).health >= 0,
    ensures
        partial_cells(ps, food, h, viewer, vlen, f, sel, l, cx, cy, x, y) >= 0,
{
    lemma_partial_food_nonneg(ps, food, viewer, vlen, f, l, cx, cy, food.len() as int);
    lemma_cols_sum_nonneg(h, f, cx, cy, x);
    lemma_col_sum_nonneg(x, f, cx, cy, y);
}

/// The head write turns the all-zero tensor into the stage of zero players.
proof fn lemma_head_start(
    ps: Seq<PlayerV>,
    viewer: int,
    vlen: int,
    f: Frame,
    hd: Tile,
    l: int,
    cx: int,
    cy: int,
)
    requires
        0 <= viewer < ps.len(),
        hd == ps[viewer].body[0],
    ensures
        0 + write_contrib(f, hd, 6, 1, l, cx, cy) == partial_players(
            ps,
            viewer,
            vlen,
            f,
            l,
            cx,
            cy,
            0,
        ),
{
}

/// A dead player contributes nothing: the roster total steps unchanged.
proof fn lemma_dead_step(
    ps: Seq<PlayerV>,
    viewer: int,
    vlen: int,
    f: Frame,
    l: int,
    cx: int,
    cy: int,
    i: int,
)
    requires
        0 <= i < ps.len(),
        !ps[i].alive,
    ensures
        partial_players(ps, viewer, vlen, f, l, cx, cy, i + 1) == partial_players(
            ps,
            viewer,
            vlen,
            f,
            l,
            cx,
            cy,
            i,
        ),
{
}

/// The head-health write opens a live player's inner stage.
proof fn lemma_health_write(
    ps: Seq<PlayerV>,
    viewer: int,
    vlen: int,
    f: Frame,
    l: int,
    cx: int,
    cy: int,
    i: int,
)
    requires
        0 <= i < ps.len(),
        ps[i].alive,
    ensures
        partial_players(ps, viewer, vlen, f, l, cx, cy, i) + write_contrib(
            f,
            ps[i].body[0],
            0,
            ps[i].health,
            l,
            cx,
            cy,
        ) == partial_inner(ps, viewer, vlen, f, l, cx, cy, i, 0),
{
}

/// One tail-first segment's five writes advance the inner stage by one.
proof fn lemma_segment_write(
    ps: Seq<PlayerV>,
    viewer: int,
    vlen: int,
    f: Frame,
    l: int,
    cx: int,
    cy: int,
    i: int,
    bi: int,
    seg: Tile,
    v2: int,
    v7: int,
    v8: int,
    v9: int,
)
    requires
        0 <= i < ps.len(),
        ps[i].alive,
        0 <= bi < ps[i].body.len(),
        seg == ps[i].body[ps[i].body.len() - 1 - bi],
        v2 == (if bi > 255 {
            255 as int
        } else {
            bi
        }),
        v7 == (if bi == 1 && ps[i].body[ps[i].body.len() - 1] == ps[i].body[ps[i].body.len() - 2] {
            1 as int
        } else {
            0 as int
        }),
        v8 == (if i != viewer && ps[i].body.len() >= vlen {
            if ps[i].body.len() - vlen + 1 > 255 {
                255 as int
            } else {
                ps[i].body.len() - vlen + 1
            }
        } else {
            0 as int
        }),
        v9 == (if i != viewer && ps[i].body.len() < vlen {
            if vlen - ps[i].body.len() > 255 {
                255 as int
            } else {
                vlen - ps[i].body.len()
            }
        } else {
            0 as int
        }),
    ensures
        partial_inner(ps, viewer, vlen, f, l, cx, cy, i, bi) + write_contrib(f, seg, 1, 1, l, cx, cy)
            + write_contrib(f, seg, 2, v2, l, cx, cy) + write_contrib(f, seg, 7, v7, l, cx, cy)
            + write_contrib(f, seg, 8, v8, l, cx, cy) + write_contrib(f, seg, 9, v9, l, cx, cy)
            == partial_inner(ps, viewer, vlen, f, l, cx, cy, i, bi + 1),
{
    let p = ps[i];
    let isv = i == viewer;
    assert(seg_sum(l, p, vlen, isv, f, cx, cy, bi + 1) == seg_sum(l, p, vlen, isv, f, cx, cy, bi)
        + seg_contrib(l, p, vlen, isv, p.body.len() - (bi + 1), f, cx, cy));
    assert(p.body.len() - (bi + 1) == p.body.len() - 1 - bi);
}

/// The longer-opponent write closes a live player's stage.
proof fn lemma_opponent_mark(
    ps: Seq<PlayerV>,
    viewer: int,
    vlen: int,
    f: Frame,
    l: int,
    cx: int,
    cy: int,
    i: int,
    v3: int,
)
    requires
        0 <= i < ps.len(),
        ps[i].alive,
        ps[i].body.len() >= 2,
        v3 == (if i != viewer && ps[i].body.len() >= vlen {
            1 as int
        } else {
            0 as int
        }),
    ensures
        partial_inner(ps, viewer, vlen, f, l, cx, cy, i, ps[i].body.len() as int) + write_contrib(
            f,
            ps[i].body[0],
            3,
            v3,
            l,
            cx,
            cy,
        ) == partial_players(ps, viewer, vlen, f, l, cx, cy, i + 1),
{
    assert(roster_sum(l, ps, viewer, vlen, f, cx, cy, i + 1) == roster_sum(
        l,
        ps,
        viewer,
        vlen,
        f,
        cx,
        cy,
        i,
    ) + player_contrib(l, ps[i], vlen, i == viewer, f, cx, cy));
}

/// Handing over from the players to the pellets, pellet writes, handing
/// over to the board cells, cell writes, column ends, and the final total.
proof fn lemma_players_to_food(
    ps: Seq<PlayerV>,
    food: Seq<Tile>,
    viewer: int,
    vlen: int,
    f: Frame,
    l: int,
    cx: int,
    cy: int,
)
    ensures
        partial_players(ps, viewer, vlen, f, l, cx, cy, ps.len() as int) == partial_food(
            ps,
            food,
            viewer,
            vlen,
            f,
            l,
            cx,
            cy,
            0,
        ),
{
}

proof fn lemma_food_write(
    ps: Seq<PlayerV>,
    food: Seq<Tile>,
    viewer: int,
    vlen: int,
    f: Frame,
    l: int,
    cx: int,
    cy: int,
    k: int,
)
    requires
        0 <= k < food.len(),
    ensures
        partial_food(ps, food, viewer, vlen, f, l, cx, cy, k) + write_contrib(
            f,
            food[k],
            4,
            1,
            l,
            cx,
            cy,
        ) == partial_food(ps, food, viewer, vlen, f, l, cx, cy, k + 1),
{
}

proof fn lemma_food_to_cells(
    ps: Seq<PlayerV>,
    food: Seq<Tile>,
    h: u32,
    viewer: int,
    vlen: int,
    f: Frame,
    sel: int,
    l: int,
    cx: int,
    cy: int,
)
    requires
        0 <= sel <= 6,
    ensures
        partial_food(ps, food, viewer, vlen, f, l, cx, cy, food.len() as int) == partial_cells(
            ps,
            food,
            h,
            viewer,
            vlen,
            f,
            sel,
            l,
            cx,
            cy,
            0,
            0,
        ),
{
}

proof fn lemma_cell_write(
    ps: Seq<PlayerV>,
    food: Seq<Tile>,
    h: u32,
    viewer: int,
    vlen: int,
    f: Frame,
    sel: int,
    l: int,
    cx: int,
    cy: int,
    x: int,
    y: int,
)
    requires
        0 <= sel <= 6,
        0 <= x,
        0 <= y,
    ensures
        partial_cells(ps, food, h, viewer, vlen, f, sel, l, cx, cy, x, y) + write_contrib(
            f,
            Tile { x: x as u32, y: y as u32 },
            5,
            1,
            l,
            cx,
            cy,
        ) + write_contrib(f, Tile { x: x as u32, y: y as u32 }, (10 + sel) as int, 1, l, cx, cy)
            == partial_cells(ps, food, h, viewer, vlen, f, sel, l, cx, cy, x, y + 1),
{
    assert(col_sum(x, f, cx, cy, y + 1) == col_sum(x, f, cx, cy, y) + (if hits(
        f,
        Tile { x: x as u32, y: y as u32 },
        cx,
        cy,
    ) {
        1 as int
    } else {
        0 as int
    }));
}

proof fn lemma_col_end(
    ps: Seq<PlayerV>,
    food: Seq<Tile>,
    h: u32,
    viewer: int,
    vlen: int,
    f: Frame,
    sel: int,
    l: int,
    cx: int,
    cy: int,
    x: int,
)
    requires
        0 <= x,
    ensures
        partial_cells(ps, food, h, viewer, vlen, f, sel, l, cx, cy, x, h as int) == partial_cells(
            ps,
            food,
            h,
            viewer,
            vlen,
            f,
            sel,
            l,
            cx,
            cy,
            x + 1,
            0,
        ),
{
    assert(cols_sum(h, f, cx, cy, x + 1) == cols_sum(h, f, cx, cy, x) + col_sum(
        x,
        f,
        cx,
        cy,
        h as int,
    ));
}

proof fn lemma_cells_end(
    ps: Seq<PlayerV>,
    food: Seq<Tile>,
    w: u32,
    h: u32,
    viewer: int,
    vlen: int,
    f: Frame,
    sel: int,
    l: int,
    cx: int,
    cy: int,
)
    requires
        0 <= viewer < ps.len(),
        vlen == ps[viewer].body.len(),
        sel == sel_layer(alive_count(ps)),
    ensures
        partial_cells(ps, food, h, viewer, vlen, f, sel, l, cx, cy, w as int, 0) == cell_total(
            ps,
            food,
            w,
            h,
            viewer,
            f,
            l,
            cx,
            cy,
        ),
{
}

/// Write one player's channels: health at its live head, the body, tail
/// distance and opponent-comparison channels segment by segment (tail
/// first), and the longer-opponent mark at an opposing head.
#[verifier::loop_isolation(false)]
#[verifier::rlimit(100)]
fn write_player(
    obs: &mut Vec<u8>,
    f: Frame,
    players: &Vec<Player>,
    viewer: usize,
    viewer_len: usize,
    i: usize,
    Ghost(ps): Ghost<Seq<PlayerV>>,
)
    requires
        ps == views_of(players@),
        viewer < players@.len(),
        i < players@.len(),
        viewer_len == ps[viewer as int].body.len(),
        forall|k: int|
            0 <= k < ps.len() ==> (#[trigger] ps[k]).body.len() >= 2 && 0 <= ps[k].health <= 100,
        old(obs)@.len() == OBS_SIZE,
        forall|l: int, cx: int, cy: int|
            0 <= l < 17 && 0 <= cx < 23 && 0 <= cy < 23 ==> #[trigger] old(obs)@[obs_idx(l, cx, cy)]
                == sat255(
                partial_players(ps, viewer as int, viewer_len as int, f, l, cx, cy, i as int),
            ),
    ensures
        final(obs)@.len() == OBS_SIZE,
        forall|l: int, cx: int, cy: int|
            0 <= l < 17 && 0 <= cx < 23 && 0 <= cy < 23 ==> #[trigger] final(obs)@[obs_idx(l, cx, cy)]
                == sat255(
                partial_players(ps, viewer as int, viewer_len as int, f, l, cx, cy, i as int + 1),
            ),
{
    let ghost vi = viewer as int;
    let ghost vl = viewer_len as int;
    proof {
        assert(ps[i as int] == players@[i as int]@);
    }
    if !players[i].alive {
        proof {
            assert forall|l: int, cx: int, cy: int|
                0 <= l < 17 && 0 <= cx < 23 && 0 <= cy < 23 implies #[trigger] obs@[obs_idx(
                l,
                cx,
                cy,
            )] == sat255(partial_players(ps, vi, vl, f, l, cx, cy, i as int + 1)) by {
                lemma_dead_step(ps, vi, vl, f, l, cx, cy, i as int);
            }
        }
        return ;
    }
    let phead = players[i].body[0];
    let hp = players[i].health;
    proof {
        lemma_partial_inner_nonneg(
            ps,
            vi,
            vl,
            f,
            0,
            tx_of(f, phead),
            ty_of(f, phead),
            i as int,
            0,
        );
        assert(hp as u8 as int == ps[i as int].health);
    }
    obs_accum(
        obs,
        f,
        phead,
        0,
        hp as u8,
        Ghost(|l2: int, cx: int, cy: int| partial_players(ps, vi, vl, f, l2, cx, cy, i as int)),
    );
    proof {
        assert forall|l: int, cx: int, cy: int|
            0 <= l < 17 && 0 <= cx < 23 && 0 <= cy < 23 implies #[trigger] obs@[obs_idx(l, cx, cy)]
            == sat255(partial_inner(ps, vi, vl, f, l, cx, cy, i as int, 0)) by {
            lemma_health_write(ps, vi, vl, f, l, cx, cy, i as int);
        }
    }
    let plen = players[i].body.len();
    let mut bi: usize = 0;
    while bi < plen
        invariant
            0 <= bi <= plen,
            obs@.len() == OBS_SIZE,
            forall|l: int, cx: int, cy: int|
                0 <= l < 17 && 0 <= cx < 23 && 0 <= cy < 23 ==> #[trigger] obs@[obs_idx(l, cx, cy)]
                    == sat255(partial_inner(ps, vi, vl, f, l, cx, cy, i as int, bi as int)),
        decreases plen - bi,
    {
        let seg = players[i].body[plen - 1 - bi];
        proof {
            assert(seg == ps[i as int].body[plen - 1 - bi]);
        }
        let v2: u8 = if bi > 255 {
            255
        } else {
            bi as u8
        };
        let tail1 = players[i].body[plen - 1];
        let tail2 = players[i].body[plen - 2];
        let v7: u8 = if bi == 1 && tail1.x == tail2.x && tail1.y == tail2.y {
            1
        } else {
            0
        };
        let v8: u8 = if i != viewer && plen >= viewer_len {
            if plen - viewer_len + 1 > 255 {
                255
            } else {
                (plen - viewer_len + 1) as u8
            }
        } else {
            0
        };
        let v9: u8 = if i != viewer && plen < viewer_len {
            if viewer_len - plen > 255 {
                255
            } else {
                (viewer_len - plen) as u8
            }
        } else {
            0
        };
        let ghost p0 = |l2: int, cx: int, cy: int|
            partial_inner(ps, vi, vl, f, l2, cx, cy, i as int, bi as int);
        let ghost p1 = |l2: int, cx: int, cy: int|
            p0(l2, cx, cy) + write_contrib(f, seg, 1, 1, l2, cx, cy);
        let ghost p2 = |l2: int, cx: int, cy: int|
            p1(l2, cx, cy) + write_contrib(f, seg, 2, v2 as int, l2, cx, cy);
        let ghost p3 = |l2: int, cx: int, cy: int|
            p2(l2, cx, cy) + write_contrib(f, seg, 7, v7 as int, l2, cx, cy);
        let ghost p4 = |l2: int, cx: int, cy: int|
            p3(l2, cx, cy) + write_contrib(f, seg, 8, v8 as int, l2, cx, cy);
        proof {
            lemma_partial_inner_nonneg(ps, vi, vl, f, 1, tx_of(f, seg), ty_of(f, seg), i as int, bi as int);
            lemma_partial_inner_nonneg(ps, vi, vl, f, 2, tx_of(f, seg), ty_of(f, seg), i as int, bi as int);
            lemma_partial_inner_nonneg(ps, vi, vl, f, 7, tx_of(f, seg), ty_of(f, seg), i as int, bi as int);
            lemma_partial_inner_nonneg(ps, vi, vl, f, 8, tx_of(f, seg), ty_of(f, seg), i as int, bi as int);
            lemma_partial_inner_nonneg(ps, vi, vl, f, 9, tx_of(f, seg), ty_of(f, seg), i as int, bi as int);
        }
        obs_accum(obs, f, seg, 1, 1, Ghost(p0));
        obs_accum(obs, f, seg, 2, v2, Ghost(p1));
        obs_accum(obs, f, seg, 7, v7, Ghost(p2));
        obs_accum(obs, f, seg, 8, v8, Ghost(p3));
        obs_accum(obs, f, seg, 9, v9, Ghost(p4));
        proof {
            assert forall|l: int, cx: int, cy: int|
                0 <= l < 17 && 0 <= cx < 23 && 0 <= cy < 23 implies #[trigger] obs@[obs_idx(
                l,
                cx,
                cy,
            )] == sat255(partial_inner(ps, vi, vl, f, l, cx, cy, i as int, bi as int + 1)) by {
                lemma_segment_write(
                    ps,
                    vi,
                    vl,
                    f,
                    l,
                    cx,
                    cy,
                    i as int,
                    bi as int,
                    seg,
                    v2 as int,
                    v7 as int,
                    v8 as int,
                    v9 as int,
                );
            }
        }
        bi += 1;
    }
    let v3: u8 = if i != viewer && plen >= viewer_len {
        1
    } else {
        0
    };
    proof {
        lemma_partial_inner_nonneg(
            ps,
            vi,
            vl,
            f,
            3,
            tx_of(f, phead),
            ty_of(f, phead),
            i as int,
            plen as int,
        );
    }
    obs_accum(
        obs,
        f,
        phead,
        3,
        v3,
        Ghost(
            |l2: int, cx: int, cy: int|
                partial_inner(ps, vi, vl, f, l2, cx, cy, i as int, plen as int),
        ),
    );
    proof {
        assert forall|l: int, cx: int, cy: int|
            0 <= l < 17 && 0 <= cx < 23 && 0 <= cy < 23 implies #[trigger] obs@[obs_idx(l, cx, cy)]
            == sat255(partial_players(ps, vi, vl, f, l, cx, cy, i as int + 1)) by {
            lemma_opponent_mark(ps, vi, vl, f, l, cx, cy, i as int, v3 as int);
        }
    }
}

/// Encode one viewer's observation tensor from the game state.
///
/// Channels: accumulated health at live heads; the body mask; per-segment
/// distance from the tail (topped at 255); the longer-opponent mark at
/// opposing heads; the food mask; the in-bounds mask; the viewer's head
/// mask; the doubled-tail mark of a just-grown snake; the opposing length
/// surplus and deficit; and a one-hot alive-count band broadcast across the
/// board, all under the viewer's frame.
#[verifier::loop_isolation(false)]
#[verifier::rlimit(100)]
pub fn encode_observation(
    players: &Vec<Player>,
    food: &Vec<Tile>,
    w: u32,
    h: u32,
    viewer: usize,
    ori: u32,
    use_symmetry: bool,
) -> (obs: Vec<u8>)
    requires
        viewer < players@.len(),
        forall|k: int|
            0 <= k < players@.len() ==> (#[trigger] players@[k]@).body.len() >= 2 && 0
                <= players@[k]@.health <= 100,
        w <= MAX_DIM,
        h <= MAX_DIM,
    ensures
        obs_matches(views_of(players@), food@, w, h, viewer as int, ori, use_symmetry, obs@),
{
    let ghost ps = views_of(players@);
    proof {
        assert forall|a: int| 0 <= a < ps.len() implies #[trigger] ps[a] == players@[a]@ by {}
        assert forall|a: int|
            0 <= a < ps.len() implies (#[trigger] ps[a]).body.len() >= 2 && 0 <= ps[a].health
            <= 100 by {
            assert(ps[a] == players@[a]@);
        }
        assert(players@[viewer as int]@.body.len() >= 2);
    }
    let head = players[viewer].body[0];
    let neck = players[viewer].body[1];
    let f = compute_frame(head, neck, ori, use_symmetry);
    let viewer_len = players[viewer].body.len();
    let ghost vi = viewer as int;
    let ghost vl = viewer_len as int;
    let mut obs: Vec<u8> = Vec::new();
    while obs.len() < OBS_SIZE
        invariant
            obs@.len() <= OBS_SIZE,
            forall|c: int| 0 <= c < obs@.len() ==> #[trigger] obs@[c] == 0,
        decreases OBS_SIZE - obs@.len(),
    {
        obs.push(0);
    }
    proof {
        assert forall|l: int, cx: int, cy: int|
            0 <= l < 17 && 0 <= cx < 23 && 0 <= cy < 23 implies #[trigger] obs@[obs_idx(l, cx, cy)]
            == sat255(0) by {
            assert(0 <= obs_idx(l, cx, cy) < OBS_SIZE);
        }
        assert(base_x(f, head) == 11 && base_y(f, head) == 11);
        assert(in_tensor(f, head));
    }
    // The viewer's head mask: its one and only write.
    obs_accum(&mut obs, f, head, 6, 1, Ghost(|l2: int, cx: int, cy: int| 0 as int));
    proof {
        assert forall|l: int, cx: int, cy: int|
            0 <= l < 17 && 0 <= cx < 23 && 0 <= cy < 23 implies #[trigger] obs@[obs_idx(l, cx, cy)]
            == sat255(partial_players(ps, vi, vl, f, l, cx, cy, 0)) by {
            lemma_head_start(ps, vi, vl, f, head, l, cx, cy);
        }
    }
    // Per-player channels.
    let mut i: usize = 0;
    while i < players.len()
        invariant
            0 <= i <= ps.len(),
            obs@.len() == OBS_SIZE,
            forall|l: int, cx: int, cy: int|
                0 <= l < 17 && 0 <= cx < 23 && 0 <= cy < 23 ==> #[trigger] obs@[obs_idx(l, cx, cy)]
                    == sat255(partial_players(ps, vi, vl, f, l, cx, cy, i as int)),
        decreases ps.len() - i,
    {
        write_player(&mut obs, f, players, viewer, viewer_len, i, Ghost(ps));
        i += 1;
    }
    // The food mask.
    proof {
        assert forall|l: int, cx: int, cy: int|
            0 <= l < 17 && 0 <= cx < 23 && 0 <= cy < 23 implies #[trigger] obs@[obs_idx(l, cx, cy)]
            == sat255(partial_food(ps, food@, vi, vl, f, l, cx, cy, 0)) by {
            lemma_players_to_food(ps, food@, vi, vl, f, l, cx, cy);
        }
    }
    let mut k: usize = 0;
    while k < food.len()
        invariant
            0 <= k <= food@.len(),
            obs@.len() == OBS_SIZE,
            forall|l: int, cx: int, cy: int|
                0 <= l < 17 && 0 <= cx < 23 && 0 <= cy < 23 ==> #[trigger] obs@[obs_idx(l, cx, cy)]
                    == sat255(partial_food(ps, food@, vi, vl, f, l, cx, cy, k as int)),
        decreases food@.len() - k,
    {
        let t = food[k];
        proof {
            lemma_partial_food_nonneg(ps, food@, vi, vl, f, 4, tx_of(f, t), ty_of(f, t), k as int);
        }
        obs_accum(
            &mut obs,
            f,
            t,
            4,
            1,
            Ghost(|l2: int, cx: int, cy: int| partial_food(ps, food@, vi, vl, f, l2, cx, cy, k as int)),
        );
        proof {
            assert forall|l: int, cx: int, cy: int|
                0 <= l < 17 && 0 <= cx < 23 && 0 <= cy < 23 implies #[trigger] obs@[obs_idx(
                l,
                cx,
                cy,
            )] == sat255(partial_food(ps, food@, vi, vl, f, l, cx, cy, k as int + 1)) by {
                lemma_food_write(ps, food@, vi, vl, f, l, cx, cy, k as int);
            }
        }
        k += 1;
    }
    // The in-bounds mask and the one-hot alive-count band.
    let alive_n = crate::game::count_alive_pub(players);
    let sel: usize = if alive_n <= 2 {
        0
    } else if alive_n >= 9 {
        6
    } else {
        alive_n - 2
    };
    let ghost sel_g = sel as int;
    proof {
        assert(sel_g == sel_layer(alive_count(ps)));
        assert forall|l: int, cx: int, cy: int|
            0 <= l < 17 && 0 <= cx < 23 && 0 <= cy < 23 implies #[trigger] obs@[obs_idx(l, cx, cy)]
            == sat255(partial_cells(ps, food@, h, vi, vl, f, sel_g, l, cx, cy, 0, 0)) by {
            lemma_food_to_cells(ps, food@, h, vi, vl, f, sel_g, l, cx, cy);
        }
    }
    let mut x: u32 = 0;
    while x < w
        invariant
            0 <= x <= w,
            obs@.len() == OBS_SIZE,
            forall|l: int, cx: int, cy: int|
                0 <= l < 17 && 0 <= cx < 23 && 0 <= cy < 23 ==> #[trigger] obs@[obs_idx(l, cx, cy)]
                    == sat255(
                    partial_cells(ps, food@, h, vi, vl, f, sel_g, l, cx, cy, x as int, 0),
                ),
        decreases w - x,
    {
        let mut y: u32 = 0;
        while y < h
            invariant
                0 <= y <= h,
                x < w,
                obs@.len() == OBS_SIZE,
                forall|l: int, cx: int, cy: int|
                    0 <= l < 17 && 0 <= cx < 23 && 0 <= cy < 23 ==> #[trigger] obs@[obs_idx(
                        l,
                        cx,
                        cy,
                    )] == sat255(
                        partial_cells(ps, food@, h, vi, vl, f, sel_g, l, cx, cy, x as int, y as int),
                    ),
            decreases h - y,
        {
            let t = Tile { x: x, y: y };
            let ghost q0 = |l2: int, cx: int, cy: int|
                partial_cells(ps, food@, h, vi, vl, f, sel_g, l2, cx, cy, x as int, y as int);
            let ghost q1 = |l2: int, cx: int, cy: int|
                q0(l2, cx, cy) + write_contrib(f, t, 5, 1, l2, cx, cy);
            proof {
                lemma_partial_cells_nonneg(
                    ps,
                    food@,
                    h,
                    vi,
                    vl,
                    f,
                    sel_g,
                    5,
                    tx_of(f, t),
                    ty_of(f, t),
                    x as int,
                    y as int,
                );
                lemma_partial_cells_nonneg(
                    ps,
                    food@,
                    h,
                    vi,
                    vl,
                    f,
                    sel_g,
                    10 + sel_g,
                    tx_of(f, t),
                    ty_of(f, t),
                    x as int,
                    y as int,
                );
            }
            obs_accum(&mut obs, f, t, 5, 1, Ghost(q0));
            obs_accum(&mut obs, f, t, 10 + sel, 1, Ghost(q1));
            proof {
                assert forall|l: int, cx: int, cy: int|
                    0 <= l < 17 && 0 <= cx < 23 && 0 <= cy < 23 implies #[trigger] obs@[obs_idx(
                    l,
                    cx,
                    cy,
                )] == sat255(
                    partial_cells(ps, food@, h, vi, vl, f, sel_g, l, cx, cy, x as int, y as int + 1),
                ) by {
                    lemma_cell_write(
                        ps,
                        food@,
                        h,
                        vi,
                        vl,
                        f,
                        sel_g,
                        l,
                        cx,
                        cy,
                        x as int,
                        y as int,
                    );
                }
            }
            y += 1;
        }
        proof {
            assert forall|l: int, cx: int, cy: int|
                0 <= l < 17 && 0 <= cx < 23 && 0 <= cy < 23 implies #[trigger] obs@[obs_idx(
                l,
                cx,
                cy,
            )] == sat255(
                partial_cells(ps, food@, h, vi, vl, f, sel_g, l, cx, cy, x as int + 1, 0),
            ) by {
                lemma_col_end(ps, food@, h, vi, vl, f, sel_g, l, cx, cy, x as int);
            }
        }
        x += 1;
    }
    proof {
        assert forall|l: int, cx: int, cy: int|
            0 <= l < 17 && 0 <= cx < 23 && 0 <= cy < 23 implies #[trigger] obs@[obs_idx(l, cx, cy)]
            == sat255(cell_total(ps, food@, w, h, vi, f, l, cx, cy)) by {
            lemma_cells_end(ps, food@, w, h, vi, vl, f, sel_g, l, cx, cy);
        }
        assert(f == frame_of(ps[vi].body[0], ps[vi].body[1], ori, use_symmetry));
    }
    obs
}

} // verus!
