use chess_engine::{Board, BoardBuilder, Color, Piece, Position};
use reinforcement_learning_chess::agent::{explores, pick_favoured};
use reinforcement_learning_chess::board::{
    material_totals, piece_points, side_to_move, successors, PieceKind, PieceOn,
};
use reinforcement_learning_chess::value::ONE;
use reinforcement_learning_chess::agent::{training_game, TrainingOptions};
use reinforcement_learning_chess::{
    hash_gamestate, ChessAgent, ChessEnvironment, Experience, Recollection, Side, TerminalState,
};

fn at(row: i32, col: i32) -> Position {
    Position::new(row, col)
}

/// White to move; Ra1-a8 mates the black king on h8 behind its pawns.
fn mate_in_one() -> Board {
    BoardBuilder::default()
        .piece(Piece::King(Color::White, at(0, 6)))
        .piece(Piece::Rook(Color::White, at(0, 0)))
        .piece(Piece::King(Color::Black, at(7, 7)))
        .piece(Piece::Pawn(Color::Black, at(6, 6)))
        .piece(Piece::Pawn(Color::Black, at(6, 7)))
        .build()
}

/// The position after Ra8: Black to move, checkmated.
fn mated() -> Board {
    BoardBuilder::default()
        .piece(Piece::King(Color::White, at(0, 6)))
        .piece(Piece::Rook(Color::White, at(7, 0)))
        .piece(Piece::King(Color::Black, at(7, 7)))
        .piece(Piece::Pawn(Color::Black, at(6, 6)))
        .piece(Piece::Pawn(Color::Black, at(6, 7)))
        .build()
        .set_turn(Color::Black)
}

/// Black to move with no legal move and not in check.
fn stalemated() -> Board {
    BoardBuilder::default()
        .piece(Piece::King(Color::Black, at(7, 7)))
        .piece(Piece::Queen(Color::White, at(5, 6)))
        .piece(Piece::King(Color::White, at(0, 0)))
        .build()
        .set_turn(Color::Black)
}

fn exploiting_agent(side: Side, foresight: u32) -> ChessAgent {
    let mut agent = ChessAgent::new();
    agent.playing_as = side;
    agent.foresight = foresight;
    agent.exploration_propensity = ONE;
    agent
}

#[test]
fn starting_position_queries() {
    let env = ChessEnvironment::new();
    assert!(!env.is_terminated());
    assert_eq!(env.available_decisions().len(), 20);
    assert_eq!(side_to_move(&env.state), Side::White);
    assert_eq!(material_totals(&env.state), (39, 39));
    for next in env.available_decisions() {
        assert_ne!(next, env.state);
        assert_eq!(side_to_move(&next), Side::Black);
    }
}

#[test]
fn piece_points_table() {
    let king = PieceOn { side: Side::White, kind: PieceKind::King, value: 99999 };
    let rook = PieceOn { side: Side::Black, kind: PieceKind::Rook, value: 5 };
    assert_eq!(piece_points(king), 0);
    assert_eq!(piece_points(rook), 5);
    assert_eq!(material_totals(&mate_in_one()), (5, 2));
}

#[test]
fn keys_are_canonical_and_safe() {
    let a = hash_gamestate(&ChessEnvironment::new().state);
    let b = hash_gamestate(&ChessEnvironment::new().state);
    assert_eq!(a, b);
    assert!(!a.contains(&b'\n') && !a.contains(&b'/'));
    let moved = successors(&ChessEnvironment::new().state)[0];
    assert_ne!(hash_gamestate(&moved), a);
    assert_ne!(hash_gamestate(&mate_in_one()), a);
}

#[test]
fn checkmate_outcome_depends_on_perspective() {
    let env = ChessEnvironment { state: mated() };
    assert!(env.is_terminated());
    assert!(env.available_decisions().is_empty());
    assert_eq!(env.terminal_state(Side::White), TerminalState::Win);
    assert_eq!(env.terminal_state(Side::Black), TerminalState::Loss);
}

#[test]
fn stalemate_is_a_draw() {
    let env = ChessEnvironment { state: stalemated() };
    assert!(env.is_terminated());
    assert_eq!(env.terminal_state(Side::White), TerminalState::Draw);
    assert_eq!(env.terminal_state(Side::Black), TerminalState::Draw);
}

#[test]
fn apply_change_and_random_advance() {
    let mut env = ChessEnvironment::new();
    let next = env.available_decisions()[3];
    env.apply_change(next);
    assert_eq!(env.state, next);
    let before = env.state;
    let options = env.available_decisions();
    env.apply_change_randomly();
    assert!(options.contains(&env.state));
    assert_ne!(env.state, before);

    let mut over = ChessEnvironment { state: mated() };
    over.apply_change_randomly();
    assert_eq!(over.state, mated());
}

#[test]
fn terminal_evaluation_is_discounted_reward() {
    let env = ChessEnvironment { state: mated() };
    for depth in 0u32..4 {
        let mut white = exploiting_agent(Side::White, 4);
        let mut black = exploiting_agent(Side::Black, 4);
        let weight = [ONE, 900_000, 810_000, 729_000][depth as usize];
        assert_eq!(white.evaluate(&env, depth), weight);
        assert_eq!(black.evaluate(&env, depth), -weight);
        assert_eq!(white.experience.len(), 0);
    }
    let mut agent = exploiting_agent(Side::White, 4);
    assert_eq!(agent.evaluate(&ChessEnvironment { state: stalemated() }, 2), 0);
}

#[test]
fn horizon_evaluation_is_discounted_material() {
    let mut agent = exploiting_agent(Side::White, 2);
    let env = ChessEnvironment { state: mate_in_one() };
    // (5 - 2) / 5 = 0.6, discounted by 0.81
    assert_eq!(agent.evaluate(&env, 2), 486_000);
    assert_eq!(agent.experience.len(), 0);
    assert_eq!(agent.positions_evaluated, 0);
}

#[test]
fn recursive_evaluation_blends_and_memorizes() {
    let mut agent = exploiting_agent(Side::White, 2);
    let env = ChessEnvironment::new();
    // depth 1: stored value 0; the first successor at the horizon has equal material
    let v = agent.evaluate(&env, 1);
    assert_eq!(v, 0);
    assert_eq!(agent.positions_evaluated, 1);
    assert_eq!(agent.experience.len(), 0);

    let mut agent = exploiting_agent(Side::White, 2);
    let env = ChessEnvironment { state: mate_in_one() };
    let v = agent.evaluate(&env, 1);
    // no stored value favours any move: the first successor is searched
    let first = ChessEnvironment { state: successors(&mate_in_one())[0] };
    let expected = if first.is_terminated() {
        405_000 // (0 + 0.81) / 2
    } else {
        243_000 // (0 + 0.6 * 0.81) / 2
    };
    assert_eq!(v, expected);
    assert_eq!(agent.positions_evaluated, 1);
    assert_eq!(
        agent.recall_experience(&env),
        Recollection { times_encountered: 1, average_value: expected }
    );
    // a second search blends the stored value of the position in
    let v2 = agent.evaluate(&env, 1);
    // the successor searched is again the first, worth twice the blend
    assert_eq!(v2, (expected * 9 / 10 + 2 * expected) / 2);
    assert_eq!(
        agent.recall_experience(&env),
        Recollection { times_encountered: 2, average_value: expected + v2 }
    );
}

#[test]
fn pick_favoured_takes_first_extreme() {
    let vals: Vec<i64> = vec![3, 7, 7, 1, 1];
    assert_eq!(pick_favoured(&vals, Side::White), 1);
    assert_eq!(pick_favoured(&vals, Side::Black), 3);
    assert_eq!(pick_favoured(&vec![5, 5], Side::White), 0);
    assert_eq!(pick_favoured(&vec![5, 5], Side::Black), 0);
}

#[test]
fn ranking_sorts_stably_by_stored_value() {
    let start = ChessEnvironment::new().state;
    let options = successors(&start);
    let mut agent = exploiting_agent(Side::White, 2);
    agent.experience.merge_observation(&hash_gamestate(&options[4]), 300_000);
    agent.experience.merge_observation(&hash_gamestate(&options[7]), -200_000);
    agent.experience.merge_observation(&hash_gamestate(&options[9]), 300_000);

    let mut ranked = options.clone();
    agent.rank_confidence_in_positions(&mut ranked);
    assert_eq!(ranked.len(), options.len());
    assert_eq!(ranked[0], options[7]);
    assert_eq!(ranked[ranked.len() - 2], options[4]);
    assert_eq!(ranked[ranked.len() - 1], options[9]);
    let unvalued: Vec<Board> = (0..options.len()).filter(|i| ![4, 7, 9].contains(i)).map(|i| options[i]).collect();
    assert_eq!(ranked[1..ranked.len() - 2].to_vec(), unvalued);

    agent.playing_as = Side::Black;
    let mut ranked = options.clone();
    agent.rank_confidence_in_positions(&mut ranked);
    assert_eq!(ranked[0], options[4]);
    assert_eq!(ranked[1], options[9]);
    assert_eq!(ranked[ranked.len() - 1], options[7]);

    let mut empty: Vec<Board> = Vec::new();
    agent.rank_confidence_in_positions(&mut empty);
    assert!(empty.is_empty());
}

#[test]
fn exploitation_follows_the_side_to_move() {
    let start = ChessEnvironment::new().state;
    let options = successors(&start);
    let mut agent = exploiting_agent(Side::Black, 2);
    agent.experience.merge_observation(&hash_gamestate(&options[4]), 300_000);
    agent.experience.merge_observation(&hash_gamestate(&options[7]), -200_000);
    let vals = agent.stored_values_of(&options);
    assert_eq!(vals[4], 300_000);
    assert_eq!(vals[7], -200_000);
    assert_eq!(pick_favoured(&vals, Side::White), 4);
    assert_eq!(pick_favoured(&vals, Side::Black), 7);
}

#[test]
fn explores_only_above_the_propensity() {
    assert!(explores(500_001, 500_000));
    assert!(!explores(500_000, 500_000));
    assert!(!explores(0, 0));
    assert!(explores(0, -1));
    assert!(!explores(999_999, ONE));
}

#[test]
fn no_exploration_when_propensity_is_one() {
    let agent = exploiting_agent(Side::White, 2);
    for _ in 0..200 {
        assert!(!agent.will_explore());
    }
    let mut always = ChessAgent::new();
    always.exploration_propensity = -1;
    assert!(always.will_explore());
}

#[test]
fn choice_is_repeatable_without_exploration() {
    let env = ChessEnvironment::new();
    let mut first = exploiting_agent(Side::White, 3);
    let mut second = exploiting_agent(Side::White, 3);
    let a = first.react(&env);
    let b = second.react(&env);
    assert_eq!(a, b);
    assert_eq!(first.last_decision, a);
    assert!(env.available_decisions().contains(&a));
    assert_eq!(first.experience.long_term_memorize(), second.experience.long_term_memorize());
}

#[test]
fn fresh_agent_takes_mate_in_one() {
    let env = ChessEnvironment { state: mate_in_one() };
    for propensity in [0, 500_000, ONE] {
        let mut agent = ChessAgent::new();
        agent.foresight = 2;
        agent.discount = 900_000;
        agent.exploration_propensity = propensity;
        let choice = agent.react(&env);
        let after = ChessEnvironment { state: choice };
        assert!(after.is_terminated());
        assert_eq!(after.terminal_state(Side::White), TerminalState::Win);
        assert_eq!(agent.last_decision, choice);
    }
}

#[test]
fn black_agent_prefers_its_own_win() {
    let env = ChessEnvironment { state: mated() };
    let mut agent = exploiting_agent(Side::Black, 2);
    assert_eq!(agent.evaluate(&env, 1), -900_000);
}

#[test]
fn memorize_experience_merges_under_the_position_key() {
    let mut agent = exploiting_agent(Side::White, 2);
    let env = ChessEnvironment::new();
    agent.memorize_experience(&env, 250_000);
    agent.memorize_experience(&env, 50_000);
    let expected = Recollection { times_encountered: 2, average_value: 300_000 };
    assert_eq!(agent.recall_experience(&env), expected);
    assert_eq!(agent.experience.lookup(&hash_gamestate(&env.state)), expected);
    assert_eq!(agent.experience.value_of(&env.state), 300_000);
    agent.experience.memorize(&env, 100_000);
    // (300_000 + 100_000) / 2
    assert_eq!(agent.experience.value_of(&env.state), 200_000);
    assert_eq!(agent.experience.value_of(&mated()), 0);
}

#[test]
fn apply_plays_a_reply() {
    let mut env = ChessEnvironment::new();
    let decision = env.available_decisions()[0];
    env.apply(decision);
    assert!(successors(&decision).contains(&env.state));
    assert_eq!(side_to_move(&env.state), Side::White);

    let mut env = ChessEnvironment { state: mate_in_one() };
    env.apply(mated());
    assert_eq!(env.state, mated());
}

#[test]
fn training_game_switches_sides_and_respects_the_turn_limit() {
    let mut agent = ChessAgent::new();
    agent.foresight = 2;
    let (env, turns) = training_game(&mut agent, ChessEnvironment::new(), 3);
    assert_eq!(agent.playing_as, Side::Black);
    assert!(turns <= 3);
    assert!(turns == 3 || env.is_terminated());
    let (same, turns) = training_game(&mut agent, ChessEnvironment { state: mated() }, 0);
    assert_eq!(same.state, mated());
    assert_eq!(turns, 0);
    assert_eq!(agent.playing_as, Side::White);
    let options = TrainingOptions { game_limit: 2, turn_limit: 1 };
    assert_eq!(options.turn_limit, 1);
}

#[test]
fn new_agent_defaults() {
    let agent = ChessAgent::new();
    assert_eq!(agent.playing_as, Side::White);
    assert_eq!(agent.foresight, 4);
    assert_eq!(agent.discount, 900_000);
    assert_eq!(agent.exploration_propensity, 500_000);
    assert_eq!(agent.positions_evaluated, 0);
    assert_eq!(agent.experience.len(), 0);
    assert_eq!(agent.experience.long_term_memory_directory(), "./experience");
    assert!(agent.experience.keys_fit_on_lines());
}

#[test]
fn training_game_stops_at_a_finished_position() {
    let mut agent = ChessAgent::new();
    agent.foresight = 2;
    let (env, turns) = training_game(&mut agent, ChessEnvironment { state: mated() }, 5);
    assert_eq!(turns, 0);
    assert_eq!(env.state, mated());
}

#[test]
fn indexed_steps_follow_the_engine_order() {
    let start = ChessEnvironment::new().state;
    let options = successors(&start);
    let mut env = ChessEnvironment::new();
    env.apply_change_at(5);
    assert_eq!(env.state, options[5]);
    let mut env = ChessEnvironment::new();
    env.apply_change_at(options.len() as u64);
    assert_eq!(env.state, start);
    let mut over = ChessEnvironment { state: mated() };
    over.apply_change_at(0);
    assert_eq!(over.state, mated());

    let decision = options[2];
    let replies = successors(&decision);
    let mut env = ChessEnvironment::new();
    env.apply_with_reply(decision, 3);
    assert_eq!(env.state, replies[3]);
    let mut env = ChessEnvironment::new();
    env.apply_with_reply(mated(), 0);
    assert_eq!(env.state, mated());
}

#[test]
fn counter_rises_once_per_blended_position() {
    let mut agent = ChessAgent::new();
    agent.foresight = 3;
    let env = ChessEnvironment::new();
    agent.evaluate(&env, 1);
    assert_eq!(agent.positions_evaluated, 2);
    agent.evaluate(&ChessEnvironment { state: mated() }, 1);
    assert_eq!(agent.positions_evaluated, 2);
    agent.evaluate(&env, 3);
    assert_eq!(agent.positions_evaluated, 2);
    // a finished game may be valued beyond the horizon
    assert_eq!(agent.evaluate(&ChessEnvironment { state: mated() }, 6), 531_441);
}
