use gym_battlesnake::game::{DeathReason, GameInstance, Player, Tile, PLAYER_STARTING_LENGTH};

/// Build a game state by hand: stacked or explicit bodies, explicit food,
/// and an occupancy board painted to match.
fn make_game(
    width: u32,
    height: u32,
    num_players: u32,
    chance: u32,
    players: Vec<Player>,
    food: Vec<Tile>,
) -> GameInstance {
    let mut board = vec![0u32; (width * height) as usize];
    for p in &players {
        if p.alive {
            for t in &p.body {
                board[(t.y * width + t.x) as usize] = p.id;
            }
        }
    }
    for t in &food {
        board[(t.y * width + t.x) as usize] = 1;
    }
    GameInstance {
        board_width: width,
        board_height: height,
        num_players,
        food_spawn_chance: chance,
        game_id: 1000000,
        over: false,
        turn: 0,
        board,
        players,
        food,
    }
}

fn snake(id: u32, health: u32, dir: char, body: Vec<Tile>) -> Player {
    Player {
        id,
        alive: true,
        health,
        move_dir: dir,
        turn: 0,
        death_reason: DeathReason::NotDead,
        body,
    }
}

fn t(x: u32, y: u32) -> Tile {
    Tile { x, y }
}

#[test]
fn scenario_single_player_eats_after_two_ticks() {
    // 11 by 11 board, one player spawned heading right at (1,1), food at (3,1):
    // after two ticks the head sits on (3,1) with length 6 and full health.
    let body = vec![t(1, 1); PLAYER_STARTING_LENGTH];
    let p = snake(1000001, 100, 'r', body);
    let mut g = make_game(11, 11, 1, 150, vec![p], vec![t(3, 1)]);
    g.step();
    assert_eq!(g.players[0].body[0], t(2, 1));
    assert_eq!(g.players[0].body.len(), PLAYER_STARTING_LENGTH);
    assert_eq!(g.players[0].health, 99);
    g.step();
    assert_eq!(g.players[0].body[0], t(3, 1));
    assert_eq!(g.players[0].body.len(), 6);
    assert_eq!(g.players[0].health, 100);
    assert!(g.players[0].alive);
    assert_eq!(g.get_turn(), 2);
}

#[test]
fn eating_removes_the_pellet() {
    let body = vec![t(2, 1); 5];
    let p = snake(1000001, 100, 'r', body);
    let mut g = make_game(11, 11, 1, 150, vec![p], vec![t(3, 1)]);
    g.step();
    assert_eq!(g.players[0].health, 100);
    assert_eq!(g.players[0].body.len(), 6);
    // The eaten tile left the food set; the eater's head occupies its cell,
    // so no fresh pellet can land there either.
    assert!(!g.food.iter().any(|f| *f == t(3, 1)));
}

#[test]
fn normal_move_keeps_length_and_advances_tail() {
    let p = snake(1000001, 100, 'r', vec![t(5, 5), t(4, 5), t(3, 5)]);
    let mut g = make_game(11, 11, 1, 150, vec![p], vec![]);
    g.step();
    assert_eq!(g.players[0].body, vec![t(6, 5), t(5, 5), t(4, 5)]);
    assert_eq!(g.players[0].health, 99);
    assert!(g.players[0].alive);
}

#[test]
fn wall_collision_kills() {
    let p = snake(1000001, 100, 'l', vec![t(0, 5), t(1, 5), t(2, 5)]);
    let mut g = make_game(11, 11, 1, 150, vec![p], vec![]);
    g.step();
    assert!(!g.players[0].alive);
    assert_eq!(g.players[0].death_reason, DeathReason::Body);
    assert!(g.is_over());
    let head = g.players[0].body[0];
    g.step();
    // A dead player no longer moves.
    assert_eq!(g.players[0].body[0], head);
    assert!(!g.players[0].alive);
}

#[test]
fn starvation_kills_with_starve_reason() {
    let p = snake(1000001, 1, 'r', vec![t(5, 5), t(4, 5), t(3, 5)]);
    let mut g = make_game(11, 11, 1, 150, vec![p], vec![]);
    g.step();
    assert!(!g.players[0].alive);
    assert_eq!(g.players[0].health, 0);
    assert_eq!(g.players[0].death_reason, DeathReason::Starve);
    assert!(g.is_over());
}

#[test]
fn eating_resets_health_before_starvation() {
    let p = snake(1000001, 1, 'r', vec![t(2, 1), t(1, 1), t(1, 2), t(1, 3)]);
    let mut g = make_game(11, 11, 1, 150, vec![p], vec![t(3, 1)]);
    g.step();
    assert!(g.players[0].alive);
    assert_eq!(g.players[0].health, 100);
}

#[test]
fn head_to_head_equal_lengths_kill_both() {
    let a = snake(1000001, 100, 'r', vec![t(4, 5), t(3, 5), t(2, 5)]);
    let b = snake(1000002, 100, 'l', vec![t(6, 5), t(7, 5), t(8, 5)]);
    let mut g = make_game(11, 11, 2, 150, vec![a, b], vec![]);
    g.step();
    assert!(!g.players[0].alive);
    assert!(!g.players[1].alive);
    assert_eq!(g.players[0].death_reason, DeathReason::Eaten);
    assert_eq!(g.players[1].death_reason, DeathReason::Eaten);
    assert!(g.is_over());
}

#[test]
fn head_to_head_shorter_dies() {
    let a = snake(1000001, 100, 'r', vec![t(4, 5), t(3, 5), t(2, 5)]);
    let b = snake(1000002, 100, 'l', vec![t(6, 5), t(7, 5), t(8, 5), t(9, 5)]);
    let mut g = make_game(11, 11, 2, 150, vec![a, b], vec![]);
    g.step();
    assert!(!g.players[0].alive);
    assert_eq!(g.players[0].death_reason, DeathReason::Eaten);
    assert!(g.players[1].alive);
    assert!(g.is_over());
}

#[test]
fn head_into_body_kills_with_body_reason() {
    let a = snake(1000001, 100, 'r', vec![t(4, 5), t(3, 5), t(2, 5)]);
    let b = snake(1000002, 100, 'u', vec![t(5, 4), t(5, 5), t(5, 6), t(5, 7)]);
    let mut g = make_game(11, 11, 2, 150, vec![a, b], vec![]);
    g.step();
    // a's head lands on (5, 5), still covered by b's moved body.
    assert!(!g.players[0].alive);
    assert_eq!(g.players[0].death_reason, DeathReason::Body);
    assert!(g.players[1].alive);
}

#[test]
fn over_needs_zero_alive_in_single_player() {
    let p = snake(1000001, 100, 'r', vec![t(5, 5), t(4, 5), t(3, 5)]);
    let mut g = make_game(11, 11, 1, 150, vec![p], vec![]);
    g.step();
    assert!(g.players[0].alive);
    assert!(!g.is_over());
}

#[test]
fn full_board_skips_the_spawn_and_terminates() {
    // Food on every cell the snake does not cover, spawn chance forced on:
    // the bounded retry finds no empty cell and the tick quietly spawns
    // nothing.
    let body = vec![t(5, 5), t(4, 5), t(3, 5)];
    let p = snake(1000001, 100, 'r', body.clone());
    let mut food = Vec::new();
    for x in 0..11u32 {
        for y in 0..11u32 {
            let cell = t(x, y);
            if !body.contains(&cell) {
                food.push(cell);
            }
        }
    }
    let n_food = food.len();
    let mut g = make_game(11, 11, 1, 1000, vec![p], food);
    g.step();
    // The head ate (6, 5); every remaining cell is occupied, so the forced
    // spawn draw finds nowhere to place a pellet.
    assert_eq!(g.food.len(), n_food - 1);
    assert!(g.players[0].alive);
    assert_eq!(g.players[0].health, 100);
    assert_eq!(g.players[0].body.len(), 4);
}

#[test]
fn board_cells_hold_one_occupant() {
    let a = snake(1000001, 100, 'r', vec![t(4, 5), t(3, 5), t(2, 5)]);
    let b = snake(1000002, 100, 'l', vec![t(8, 8), t(9, 8), t(9, 9)]);
    let mut g = make_game(11, 11, 2, 150, vec![a, b], vec![t(0, 0)]);
    g.step();
    for x in 0..11u32 {
        for y in 0..11u32 {
            let v = g.get_tile_id(x, y);
            let covered: Vec<u32> = g
                .players
                .iter()
                .filter(|p| p.alive && p.body.contains(&t(x, y)))
                .map(|p| p.id)
                .collect();
            let has_food = g.food.contains(&t(x, y));
            if has_food {
                assert_eq!(v, 1);
                assert!(covered.is_empty());
            } else if !covered.is_empty() {
                assert_eq!(covered.len(), 1);
                assert_eq!(v, covered[0]);
            } else {
                assert_eq!(v, 0);
            }
        }
    }
}

#[test]
fn fresh_game_has_stacked_players_and_food() {
    let g = GameInstance::new(11, 11, 4, 150);
    assert_eq!(g.players.len(), 4);
    assert!(!g.is_over());
    assert_eq!(g.get_turn(), 0);
    let mut ids = Vec::new();
    for p in &g.players {
        assert!(p.alive);
        assert_eq!(p.health, 100);
        assert_eq!(p.body.len(), PLAYER_STARTING_LENGTH);
        for seg in &p.body {
            assert_eq!(*seg, p.body[0]);
        }
        assert!(p.id >= 1000000);
        assert!(!ids.contains(&p.id));
        ids.push(p.id);
    }
    // One pellet per player: the board has free cells, so the bounded
    // random retry (or its deterministic fallback) always places each one.
    assert_eq!(g.food.len(), 4);
    for f in &g.food {
        assert!(f.x < 11 && f.y < 11);
        assert_eq!(g.get_tile_id_from_tile(*f), 1);
    }
    // Every body sits stacked on one of the eight fixed spawn points,
    // distinct players on distinct points.
    let spawn_points = [
        t(1, 1),
        t(5, 1),
        t(9, 1),
        t(1, 5),
        t(9, 5),
        t(1, 9),
        t(5, 9),
        t(9, 9),
    ];
    let mut used = Vec::new();
    for p in &g.players {
        assert!(spawn_points.contains(&p.body[0]));
        assert!(!used.contains(&p.body[0]));
        used.push(p.body[0]);
    }
    for p in &g.players {
        assert_eq!(g.get_tile_id_from_tile(p.body[0]), p.id);
    }
}

#[test]
fn getters_and_set_player_move() {
    let mut g = GameInstance::new(11, 11, 2, 150);
    let (w, h, n, c) = g.get_parameters();
    assert_eq!((w, h, n, c), (11, 11, 2, 150));
    let ids = g.get_player_ids();
    assert_eq!(ids.len(), 2);
    assert_eq!(g.get_player_id(0), Some(ids[0]));
    assert_eq!(g.get_player_id(1), Some(ids[1]));
    assert_eq!(g.get_player_id(2), None);
    assert!(g.set_player_move(ids[0], 'l'));
    assert_eq!(g.players[0].move_dir, 'l');
    assert!(!g.set_player_move(77, 'r'));
    let (board, players, food, bw, bh) = g.get_state();
    assert_eq!(board.len(), 121);
    assert_eq!(players.len(), 2);
    assert_eq!(food.len(), 2);
    assert_eq!((bw, bh), (11, 11));
    assert_eq!(g.get_game_id(), 1000000);
}

#[test]
fn player_new_starts_alive_and_empty() {
    let p = Player::new(1234567);
    assert_eq!(p.id, 1234567);
    assert!(p.alive);
    assert_eq!(p.health, 100);
    assert_eq!(p.move_dir, 'u');
    assert_eq!(p.turn, 0);
    assert_eq!(p.death_reason, DeathReason::NotDead);
    assert!(p.body.is_empty());
}

#[test]
fn forced_spawn_on_empty_food_set() {
    let p = snake(1000001, 100, 'r', vec![t(5, 5), t(4, 5), t(3, 5)]);
    let mut g = make_game(11, 11, 1, 0, vec![p], vec![]);
    // With no food at all, the spawn is forced regardless of the chance.
    g.step();
    assert_eq!(g.food.len(), 1);
    let f = g.food[0];
    assert!(f.x < 11 && f.y < 11);
    assert!(!g.players[0].body.contains(&f));
}

#[test]
fn zero_chance_spawns_nothing_while_food_remains() {
    let p = snake(1000001, 100, 'r', vec![t(5, 5), t(4, 5), t(3, 5)]);
    let mut g = make_game(11, 11, 1, 0, vec![p], vec![t(0, 0)]);
    g.step();
    assert_eq!(g.food, vec![t(0, 0)]);
}
