use pool_game::grid::WHITE_BALL;
use pool_game::rules::{pocketed_balls, CueAction, MainState};

#[test]
fn new_game() {
    let state = MainState::new();
    assert_eq!(state.turn(), 1);
    assert_eq!(state.player_1_points(), 0);
    assert_eq!(state.player_2_points(), 0);
    assert!(state.player_scores());
    assert!(!state.game_over());
    assert!(state.cue_ready());
    assert_eq!(state.holes().holes.len(), 6);
}

#[test]
fn score_goes_to_the_shooter() {
    let mut state = MainState::new();
    state.score();
    assert_eq!(state.player_1_points(), 1);
    assert_eq!(state.player_2_points(), 0);
    assert!(state.player_scores());
}

#[test]
fn cue_actions() {
    let mut state = MainState::new();
    assert_eq!(state.prepare_cue(false, false), CueAction::Roll);
    assert_eq!(state.prepare_cue(true, false), CueAction::Stop);
    assert!(state.cue_ready());
    assert_eq!(state.prepare_cue(true, true), CueAction::Strike);
    assert!(state.cue_struck());
    state.end_turn();
    assert!(!state.cue_struck());
    assert!(!state.cue_ready());
    assert!(!state.player_scores());
    assert_eq!(state.turn(), 1);
    assert_eq!(state.prepare_cue(false, true), CueAction::Roll);
    assert!(!state.cue_ready());
    assert!(!state.cue_struck());
}

#[test]
fn missed_shot_passes_the_turn() {
    let mut state = MainState::new();
    let mut reds: Vec<u32> = (1..=15).collect();
    // Strike.
    assert_eq!(state.prepare_cue(true, true), CueAction::Strike);
    assert!(!state.settle_pockets(&mut reds, &vec![]));
    state.end_turn();
    assert_eq!(state.turn(), 1);
    // Rolling.
    assert_eq!(state.prepare_cue(false, false), CueAction::Roll);
    state.settle_pockets(&mut reds, &vec![]);
    state.end_turn();
    assert_eq!(state.turn(), 1);
    // At rest: the turn passes, once.
    assert_eq!(state.prepare_cue(true, false), CueAction::Stop);
    state.settle_pockets(&mut reds, &vec![]);
    state.end_turn();
    assert_eq!(state.turn(), 2);
    assert_eq!(state.prepare_cue(true, false), CueAction::Stop);
    state.end_turn();
    assert_eq!(state.turn(), 2);
}

#[test]
fn potting_shot_keeps_the_turn() {
    let mut state = MainState::new();
    let mut reds: Vec<u32> = (1..=15).collect();
    state.prepare_cue(true, true);
    state.end_turn();
    state.prepare_cue(false, false);
    assert!(state.can_settle(reds.len(), &vec![4]));
    assert!(!state.settle_pockets(&mut reds, &vec![4]));
    state.end_turn();
    assert_eq!(reds.len(), 14);
    assert!(!reds.contains(&5));
    assert_eq!(state.player_1_points(), 1);
    state.prepare_cue(true, false);
    state.end_turn();
    assert_eq!(state.turn(), 1);
}

#[test]
fn settle_removes_in_order_and_reports_the_cue_ball() {
    let mut state = MainState::new();
    let mut reds = vec!['a', 'b', 'c', 'd', 'e'];
    let list = vec![1, WHITE_BALL, 2];
    assert!(state.can_settle(reds.len(), &list));
    assert!(state.settle_pockets(&mut reds, &list));
    assert_eq!(reds, vec!['a', 'd', 'e']);
    assert_eq!(state.player_1_points(), 2);
    assert!(!state.game_over());
}

#[test]
fn second_player_scores_on_their_turn() {
    let mut state = MainState::new();
    let mut reds = vec![1, 2, 3];
    state.prepare_cue(true, true);
    state.end_turn();
    state.prepare_cue(true, false);
    state.end_turn();
    assert_eq!(state.turn(), 2);
    state.settle_pockets(&mut reds, &vec![0]);
    assert_eq!(state.player_1_points(), 0);
    assert_eq!(state.player_2_points(), 1);
    assert_eq!(reds, vec![2, 3]);
}

#[test]
fn clearing_the_table_ends_the_game() {
    let mut state = MainState::new();
    let mut reds = vec![7, 8];
    state.settle_pockets(&mut reds, &vec![1, 0]);
    assert!(reds.is_empty());
    assert!(state.game_over());
    assert_eq!(state.player_1_points() + state.player_2_points(), 2);
    // Nothing more happens once the game is over.
    let mut more = vec![1];
    assert!(!state.settle_pockets(&mut more, &vec![0, WHITE_BALL]));
    assert_eq!(more, vec![1]);
    assert_eq!(state.player_1_points(), 2);
}

#[test]
fn points_and_balls_add_up() {
    let mut state = MainState::new();
    let mut reds: Vec<u32> = (1..=15).collect();
    state.settle_pockets(&mut reds, &vec![14, 0, WHITE_BALL, 3]);
    assert_eq!(state.player_1_points() as usize + state.player_2_points() as usize + reds.len(), 15);
}

#[test]
fn can_settle_rejects_removals_off_the_end() {
    let state = MainState::new();
    assert!(state.can_settle(4, &vec![3, 3]));
    assert!(state.can_settle(4, &vec![3, 2]));
    assert!(!state.can_settle(4, &vec![1, 4]));
    assert!(!state.can_settle(0, &vec![0]));
    assert!(state.can_settle(0, &vec![WHITE_BALL]));
}

#[test]
fn pocket_list_order() {
    let white = vec![false, true, false, false, false, true];
    let reds = vec![vec![false; 6], vec![true, false, false, false, false, false], vec![false, false, true, true, false, false]];
    let (list, detected) = pocketed_balls(&white, &reds);
    assert_eq!(list, vec![WHITE_BALL, WHITE_BALL, 1, 2, 2]);
    assert!(detected);
}

#[test]
fn empty_pocket_list() {
    let (list, detected) = pocketed_balls(&vec![false; 6], &vec![vec![false; 6]; 3]);
    assert!(list.is_empty());
    assert!(!detected);
}

#[test]
fn ball_in_two_pockets_leaves_once() {
    let mut state = MainState::new();
    let mut reds = vec![10, 20, 30];
    assert!(state.can_settle(reds.len(), &vec![2, 2]));
    assert!(!state.settle_pockets(&mut reds, &vec![2, 2]));
    assert_eq!(reds, vec![10, 20]);
    assert_eq!(state.player_1_points(), 1);
}

#[test]
fn two_reds_in_one_frame_both_leave() {
    let mut state = MainState::new();
    let mut reds: Vec<u32> = (1..=15).collect();
    state.settle_pockets(&mut reds, &vec![3, 14]);
    assert_eq!(reds.len(), 13);
    assert!(!reds.contains(&4));
    assert!(!reds.contains(&15));
    assert_eq!(state.player_1_points(), 2);
}

#[test]
fn click_as_the_cue_ball_stops_still_passes_a_missed_turn() {
    let mut state = MainState::new();
    let mut reds: Vec<u32> = (1..=15).collect();
    // Player 1 strikes and pots nothing.
    state.prepare_cue(true, true);
    state.settle_pockets(&mut reds, &vec![]);
    state.end_turn();
    state.prepare_cue(false, false);
    state.settle_pockets(&mut reds, &vec![]);
    state.end_turn();
    assert_eq!(state.turn(), 1);
    // The cue ball comes to rest and the button is pressed in the same frame.
    assert_eq!(state.prepare_cue(true, true), CueAction::Strike);
    state.settle_pockets(&mut reds, &vec![]);
    state.end_turn();
    assert_eq!(state.turn(), 2);
    // The strike is player 2's shot.
    assert!(!state.player_scores());
    assert!(!state.cue_ready());
    state.prepare_cue(true, false);
    state.end_turn();
    assert_eq!(state.turn(), 1);
}
