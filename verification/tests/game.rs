use simple_kv_store::game::{
    initial_row, is_high_score, name_from_draws, parse_move, record_score, resolve_name,
    sanitize_name, GameRenderer, GameState, HiScore, MoveRequest, PlayerMove,
};

fn fresh_state() -> GameState {
    GameState {
        player_pos: (1, 1),
        top_row: vec![false, false, true, false],
        bottom_row: vec![false, false, false, true],
        score: 0,
        is_game_over: false,
    }
}

#[test]
fn moves_change_the_row_and_quit_ends_the_game() {
    let mut state = fresh_state();
    state.handle_input(PlayerMove::Up);
    assert_eq!(state.player_pos, (1, 0));
    state.handle_input(PlayerMove::Down);
    assert_eq!(state.player_pos, (1, 1));
    state.handle_input(PlayerMove::Quit);
    assert!(state.is_game_over);
    state.handle_input(PlayerMove::Up);
    assert_eq!(state.player_pos, (1, 1));
}

#[test]
fn a_tick_shifts_rows_scores_and_detects_collisions() {
    let mut state = fresh_state();
    state.update_step(true, false, false);
    assert_eq!(state.score, 1);
    assert_eq!(state.top_row, vec![false, true, false, true]);
    assert_eq!(state.bottom_row, vec![false, false, true, false]);
    assert!(!state.is_game_over);

    // The next shift brings the bottom obstacle onto the player's cell.
    state.update_step(false, false, false);
    assert_eq!(state.score, 2);
    assert_eq!(state.bottom_row, vec![false, true, false, false]);
    assert!(state.is_game_over);

    // A finished game no longer moves.
    let frozen_top = state.top_row.clone();
    state.update_step(true, true, true);
    assert_eq!(state.score, 2);
    assert_eq!(state.top_row, frozen_top);
}

#[test]
fn a_full_column_is_broken_up_by_the_tie_break() {
    let mut state = fresh_state();
    state.update_step(true, true, true);
    assert_eq!(state.top_row[3], false);
    assert_eq!(state.bottom_row[3], true);
    let mut state2 = fresh_state();
    state2.update_step(true, true, false);
    assert_eq!(state2.top_row[3], true);
    assert_eq!(state2.bottom_row[3], false);
}

#[test]
fn rows_render_with_player_obstacles_and_space() {
    let renderer = GameRenderer::new();
    let row = vec![false, true, false];
    assert_eq!(renderer.row_text(&row, Some(0)), "x- ");
    assert_eq!(renderer.row_text(&row, None), " - ");
    assert_eq!(renderer.row_text(&row, Some(1)), " x ");
}

#[test]
fn move_requests_parse_only_the_three_actions() {
    let up = MoveRequest { movement: "up".to_string() };
    assert!(matches!(parse_move(&up), Some(PlayerMove::Up)));
    let down = MoveRequest { movement: "down".to_string() };
    assert!(matches!(parse_move(&down), Some(PlayerMove::Down)));
    let quit = MoveRequest { movement: "quit".to_string() };
    assert!(matches!(parse_move(&quit), Some(PlayerMove::Quit)));
    let sideways = MoveRequest { movement: "sideways".to_string() };
    assert!(parse_move(&sideways).is_none());
}

#[test]
fn the_top_three_is_open_until_full_then_beaten_only() {
    let empty: Vec<HiScore> = Vec::new();
    assert!(is_high_score(&empty, 0));
    let board = vec![
        HiScore { name: "a".to_string(), score: 30 },
        HiScore { name: "b".to_string(), score: 20 },
        HiScore { name: "c".to_string(), score: 10 },
    ];
    assert!(is_high_score(&board, 11));
    assert!(!is_high_score(&board, 10));
    assert!(!is_high_score(&board, 9));
}

#[test]
fn recorded_scores_stay_sorted_and_capped_at_three() {
    let mut board: Vec<HiScore> = Vec::new();
    record_score(&mut board, "a".to_string(), 10);
    record_score(&mut board, "b".to_string(), 30);
    record_score(&mut board, "c".to_string(), 20);
    let listed: Vec<(String, u32)> = board.iter().map(|h| (h.name.clone(), h.score)).collect();
    assert_eq!(
        listed,
        vec![
            ("b".to_string(), 30),
            ("c".to_string(), 20),
            ("a".to_string(), 10),
        ]
    );
    record_score(&mut board, "d".to_string(), 25);
    let listed: Vec<(String, u32)> = board.iter().map(|h| (h.name.clone(), h.score)).collect();
    assert_eq!(
        listed,
        vec![
            ("b".to_string(), 30),
            ("d".to_string(), 25),
            ("c".to_string(), 20),
        ]
    );
    // An equal score goes after the one already on the board.
    record_score(&mut board, "e".to_string(), 30);
    let listed: Vec<(String, u32)> = board.iter().map(|h| (h.name.clone(), h.score)).collect();
    assert_eq!(
        listed,
        vec![
            ("b".to_string(), 30),
            ("e".to_string(), 30),
            ("d".to_string(), 25),
        ]
    );
}

#[test]
fn names_keep_letters_only() {
    assert_eq!(sanitize_name("Ada Lovelace 42!"), "AdaLovelace");
    assert_eq!(sanitize_name("1234 !?"), "");
    assert_eq!(sanitize_name("plain"), "plain");
}

#[test]
fn generated_names_map_draws_to_capitals() {
    assert_eq!(name_from_draws(&vec![0, 1, 25, 26]), "ABZA");
    assert_eq!(name_from_draws(&Vec::new()), "");
}

#[test]
fn starting_rows_leave_the_player_room() {
    let draws = vec![true; 14];
    let row = initial_row(&draws);
    assert_eq!(row.len(), 14);
    assert!(row[..11].iter().all(|c| !c));
    assert!(row[11..].iter().all(|c| *c));
}

#[test]
fn a_letterless_name_falls_back_to_a_generated_one() {
    let draws = vec![0, 1, 2, 3, 4, 5, 6, 7];
    assert_eq!(resolve_name("Ada Lovelace 42!", &draws), "AdaLovelace");
    assert_eq!(resolve_name("1234 !?", &draws), "ABCDEFGH");
    assert_eq!(resolve_name("", &draws), "ABCDEFGH");
}
