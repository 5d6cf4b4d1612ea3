use trapcat::board::Board;
use trapcat::geometry::Position;
use trapcat::planner::{search_plan, search_plan_with_ceiling, AutoPlayer, ProposedMove, SearchOutcome};

fn pos(r: i8, c: i8) -> Position {
    Position::new(r, c)
}

/// Applies the plan to the board, interleaved with real cat-policy
/// moves, and asserts that it is legal throughout and ends with the
/// cat trapped.
fn replay_traps(board: &mut Board, plan: &[Position]) {
    assert!(!plan.is_empty());
    for (i, p) in plan.iter().enumerate() {
        assert!(board.place_obstacle(*p), "plan placement must be legal");
        let mv = board.move_cat();
        if i + 1 == plan.len() {
            assert_eq!(mv, None, "the cat must be trapped after the last placement");
        } else {
            assert!(mv.is_some(), "the cat must still move before the plan ends");
            assert!(
                !board.cat_position().is_edge(),
                "the cat must never reach the boundary mid-plan"
            );
        }
    }
}

/// A board whose only open cells are row 5 (and the cat on it): the
/// cat can run for either end of the corridor.
fn corridor_board() -> Board {
    let mut b = Board::empty(pos(5, 4));
    for c in 0..10 {
        assert!(b.place_obstacle(pos(4, c)));
        assert!(b.place_obstacle(pos(6, c)));
    }
    b
}

#[test]
fn search_traps_a_nearly_trapped_cat() {
    // One open neighbour leads into a short sealed corridor; a single
    // placement shuts it.
    let mut b = Board::empty(pos(5, 4));
    for c in 0..10 {
        assert!(b.place_obstacle(pos(4, c)));
        assert!(b.place_obstacle(pos(6, c)));
    }
    for c in 5..10 {
        assert!(b.place_obstacle(pos(5, c)));
    }
    // Open cells: (5,0) .. (5,4); the cat escapes west unless stopped.
    match search_plan(&b) {
        SearchOutcome::Win(plan) => {
            replay_traps(&mut b, &plan);
        },
        _ => panic!("a trapping sequence exists and must be found"),
    }
}

#[test]
fn search_traps_the_corridor_cat() {
    let mut b = corridor_board();
    match search_plan(&b) {
        SearchOutcome::Win(plan) => {
            assert!(plan.len() >= 2, "both corridor ends must be shut");
            replay_traps(&mut b, &plan);
        },
        _ => panic!("a trapping sequence exists and must be found"),
    }
}

#[test]
fn planner_terminates_on_the_empty_board() {
    // End to end from the empty board with the cat at the centre.  The
    // flow-greedy cat reaches the boundary in four moves and cannot be
    // outbuilt at one wall per turn, so no search depth yields a
    // trapping sequence here; what the planner owes is to terminate
    // within its iteration ceiling and answer with a distinct, legal
    // outcome.  A found plan must trap when replayed; hitting the
    // ceiling must yield a legal fallback placement.
    let mut b = Board::empty(pos(5, 4));
    match search_plan_with_ceiling(&b, 2000) {
        SearchOutcome::Win(plan) => {
            replay_traps(&mut b, &plan);
        },
        SearchOutcome::Fallback(p) => {
            assert!(p.is_valid());
            assert!(!b.is_obstructed(p));
            assert_ne!(p, b.cat_position());
            assert!(b.place_obstacle(p));
        },
        SearchOutcome::NoForcedWin => {},
    }
}

#[test]
fn no_forced_win_when_the_cat_sits_beside_two_edges() {
    // The cat at (1, 1) always has an open edge neighbour after any
    // single placement, so every branch of the search ends with the
    // simulated cat escaping: the search exhausts its queue and
    // reports — provenly — that no trapping sequence exists.
    let b = Board::empty(pos(1, 1));
    match search_plan(&b) {
        SearchOutcome::NoForcedWin => {},
        SearchOutcome::Win(_) => panic!("no trapping sequence can exist here"),
        SearchOutcome::Fallback(_) => panic!("the queue empties long before the ceiling"),
    }
}

#[test]
fn auto_player_reports_no_forced_win_with_an_empty_cache() {
    let b = Board::empty(pos(1, 1));
    let mut player = AutoPlayer::new();
    match player.get_move(&b) {
        ProposedMove::NoForcedWin => {},
        _ => panic!("no trapping sequence can exist here"),
    }
}

#[test]
fn auto_player_serves_the_plan_turn_by_turn() {
    let mut live = corridor_board();
    let mut player = AutoPlayer::new();
    let mut turns = 0;
    loop {
        assert!(!live.cat_position().is_edge(), "the cat must not escape");
        let mv = match player.get_move(&live) {
            ProposedMove::Planned(p) => p,
            ProposedMove::Fallback(p) => p,
            ProposedMove::NoForcedWin => panic!("a forced win exists"),
        };
        assert!(live.place_obstacle(mv));
        if live.move_cat().is_none() {
            break;  // trapped: the player has won
        }
        turns += 1;
        assert!(turns < 200, "the game must end");
    }
}

#[test]
fn auto_player_revalidates_a_stale_cache() {
    let mut live = corridor_board();
    let mut player = AutoPlayer::new();
    let first = match player.get_move(&live) {
        ProposedMove::Planned(p) => p,
        _ => panic!("a forced win exists"),
    };
    assert!(live.place_obstacle(first));
    let cat_mv = live.move_cat();
    assert!(cat_mv.is_some());
    // Divergence: someone walls a cell behind the planner's back.  If
    // that cell was the cached next placement, the player must notice
    // and still answer with a placement that is legal on the live
    // board.
    let mut spoiler = None;
    for c in 0..10 {
        let p = pos(5, c);
        if live.place_obstacle(p) {
            spoiler = Some(p);
            break;
        }
    }
    assert!(spoiler.is_some());
    if !live.cat_position().is_edge() {
        match player.get_move(&live) {
            ProposedMove::Planned(p) | ProposedMove::Fallback(p) => {
                assert!(!live.is_obstructed(p));
                assert_ne!(p, live.cat_position());
                assert!(p.is_valid());
            },
            ProposedMove::NoForcedWin => {},
        }
    }
}
