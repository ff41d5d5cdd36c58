use party_quiz::model::{
    ActionError, Game, GRACE_MS, JoinError, MAX_PLAYERS, MAX_POINTS, MIN_POINTS, PODIUM_MS,
    Phase, PlayerColor, Question, QuestionDifficulty, REVEAL_MS, STANDINGS_MS, Settings,
    clean_name, points_for, push_usize,
};

fn question(n: usize) -> Question {
    let mut id = String::from("q");
    push_usize(&mut id, n);
    Question {
        id,
        category: String::from("Science"),
        difficulty: QuestionDifficulty::Medium,
        text: String::from("Which planet has the shortest day?"),
        answers: [
            String::from("Mars"),
            String::from("Jupiter"),
            String::from("Venus"),
            String::from("Saturn"),
        ],
        correct: 1,
        why: Some(String::from("Jupiter spins once every 9 h 56 min.")),
    }
}

fn table(players: usize, questions: usize) -> Game {
    let mut game = Game::new(Settings {
        question_count: questions,
        answer_time_ms: 20_000,
    });
    game.load_questions((0..questions).map(question).collect());
    for (i, color) in PlayerColor::ALL.iter().enumerate().take(players) {
        let mut name = String::from("P");
        push_usize(&mut name, i);
        game.join(&name, *color, 100 + i as u64).expect("seat");
    }
    game
}

#[test]
fn points_decay_linearly_from_max_to_min() {
    assert_eq!(points_for(0, 20_000), MAX_POINTS);
    assert_eq!(points_for(10_000, 20_000), 750);
    assert_eq!(points_for(20_000, 20_000), MIN_POINTS);
    assert_eq!(points_for(99_000, 20_000), MIN_POINTS);
}

#[test]
fn names_are_trimmed_capped_and_deduplicated() {
    assert_eq!(clean_name("  Marta   Nováková  "), "Marta Nováko");
    assert_eq!(clean_name("\t\n"), "");
    let mut game = Game::default();
    game.join("Eli", PlayerColor::Coral, 1).expect("seat");
    game.join("eli", PlayerColor::Blue, 2).expect("seat");
    game.join("ELI", PlayerColor::Lime, 3).expect("seat");
    let names: Vec<&str> = game.players().iter().map(|p| p.name.as_str()).collect();
    assert_eq!(names, ["Eli", "eli 2", "ELI 3"]);
}

#[test]
fn join_refuses_empty_names_taken_colours_and_a_full_table() {
    let mut game = Game::default();
    assert_eq!(
        game.join("   ", PlayerColor::Coral, 1),
        Err(JoinError::EmptyName)
    );
    game.join("A", PlayerColor::Coral, 1).expect("seat");
    assert_eq!(
        game.join("B", PlayerColor::Coral, 2),
        Err(JoinError::ColorTaken)
    );
    for (i, color) in PlayerColor::ALL.iter().enumerate().skip(1) {
        game.join("B", *color, 10 + i as u64).expect("seat");
    }
    assert_eq!(game.free_colors().len(), 0);
    // Six colours, twelve seats: once every colour is in use they repeat.
    for i in 6..MAX_PLAYERS {
        game.join("C", PlayerColor::Coral, 100 + i as u64)
            .expect("colours repeat once all six are taken");
    }
    assert_eq!(
        game.join("Late", PlayerColor::Blue, 9_999),
        Err(JoinError::Full)
    );
}

#[test]
fn host_is_the_earliest_connected_player() {
    let mut game = table(3, 1);
    assert_eq!(game.host().map(|p| p.seat), Some(0));
    game.leave(100);
    assert_eq!(game.host().map(|p| p.seat), Some(1));
    assert!(game.reconnect(100));
    assert_eq!(game.host().map(|p| p.seat), Some(0));
    assert!(!game.reconnect(4_242));
}

#[test]
fn start_needs_the_host_two_players_and_questions() {
    let mut game = table(1, 1);
    assert_eq!(game.start(100), Err(ActionError::NotEnoughPlayers));
    game.join("B", PlayerColor::Blue, 101).expect("seat");
    assert_eq!(game.start(101), Err(ActionError::NotHost));
    let mut empty = table(2, 0);
    assert_eq!(empty.start(100), Err(ActionError::NoQuestions));
    assert_eq!(game.start(100), Ok(()));
    assert!(matches!(game.phase(), Phase::Question { index: 0, .. }));
    assert_eq!(game.start(100), Err(ActionError::WrongPhase));
}

#[test]
fn answers_lock_once_and_score_by_speed() {
    let mut game = table(2, 1);
    game.start(100).expect("start");
    game.tick(2_000);
    assert_eq!(game.answer(100, 1), Ok(()));
    assert_eq!(game.answer(100, 2), Err(ActionError::AlreadyAnswered));
    assert_eq!(game.answer(101, 7), Err(ActionError::BadChoice));
    assert_eq!(game.answer(999, 1), Err(ActionError::UnknownToken));
    game.tick(8_000);
    game.answer(101, 0).expect("wrong answer still locks");
    assert_eq!(game.answered_count(), 2);
    // Everyone answered: the countdown closes after the grace period.
    game.tick(GRACE_MS - 1);
    assert!(matches!(game.phase(), Phase::Question { .. }));
    game.tick(1);
    assert!(matches!(game.phase(), Phase::Reveal { index: 0, .. }));
    let p0 = game.player_by_token(100).expect("p0");
    let p1 = game.player_by_token(101).expect("p1");
    assert_eq!(p0.score, points_for(2_000, 20_000));
    assert_eq!(p0.last_gain, 950);
    assert_eq!(p1.score, 0);
    assert_eq!(p1.streak, 0);
}

#[test]
fn streak_bonus_starts_after_three_in_a_row() {
    let mut game = table(2, 5);
    game.start(100).expect("start");
    let mut gains = Vec::new();
    for _ in 0..5 {
        game.answer(100, 1).expect("answer");
        game.tick(20_000);
        gains.push(game.player_by_token(100).expect("p0").last_gain);
        game.tick(REVEAL_MS);
        game.tick(STANDINGS_MS);
    }
    assert_eq!(gains, [1_000, 1_000, 1_000, 1_200, 1_200]);
    assert!(matches!(game.phase(), Phase::Podium { .. }));
}

#[test]
fn a_timed_out_question_moves_to_reveal_then_standings_then_next() {
    let mut game = table(2, 2);
    game.start(100).expect("start");
    game.tick(19_999);
    assert!(matches!(game.phase(), Phase::Question { .. }));
    game.tick(1);
    assert!(matches!(game.phase(), Phase::Reveal { index: 0, .. }));
    game.tick(REVEAL_MS);
    assert!(matches!(game.phase(), Phase::Standings { index: 0, .. }));
    game.tick(STANDINGS_MS);
    assert!(matches!(game.phase(), Phase::Question { index: 1, .. }));
    assert_eq!(game.answered_count(), 0);
}

#[test]
fn host_can_skip_end_and_restart() {
    let mut game = table(2, 3);
    assert_eq!(game.skip(100), Err(ActionError::WrongPhase));
    game.start(100).expect("start");
    assert_eq!(game.skip(101), Err(ActionError::NotHost));
    game.skip(100).expect("skip closes the countdown");
    assert!(matches!(game.phase(), Phase::Reveal { .. }));
    game.skip(100).expect("skip the reveal");
    assert!(matches!(game.phase(), Phase::Standings { .. }));
    game.end(100).expect("end early");
    assert!(matches!(game.phase(), Phase::Podium { .. }));
    game.leave(101);
    game.new_game(100).expect("back to lobby");
    assert_eq!(game.phase(), Phase::Lobby);
    assert_eq!(game.players().len(), 1, "disconnected seats are dropped");
    assert_eq!(game.players()[0].score, 0);
}

#[test]
fn podium_returns_to_the_lobby_on_its_own() {
    let mut game = table(2, 1);
    game.start(100).expect("start");
    game.tick(20_000);
    game.tick(REVEAL_MS);
    game.tick(STANDINGS_MS);
    assert!(matches!(game.phase(), Phase::Podium { .. }));
    game.tick(PODIUM_MS);
    assert_eq!(game.phase(), Phase::Lobby);
}

#[test]
fn standings_rank_by_score_then_seat() {
    let mut game = table(3, 1);
    game.start(100).expect("start");
    game.tick(1_000);
    game.answer(102, 1).expect("fast and right");
    game.tick(5_000);
    game.answer(100, 1).expect("slower and right");
    game.answer(101, 0).expect("wrong");
    game.tick(20_000);
    let seats: Vec<usize> = game.standings().iter().map(|p| p.seat).collect();
    assert_eq!(seats, [2, 0, 1]);
}

#[test]
fn reset_all_empties_the_table_from_any_phase() {
    let mut game = table(3, 2);
    game.start(100).expect("start");
    game.reset_all();
    assert_eq!(game.phase(), Phase::Lobby);
    assert!(game.players().is_empty());
    assert_eq!(game.answer(100, 1), Err(ActionError::WrongPhase));
}

#[test]
fn every_mutation_bumps_the_version() {
    let mut game = table(2, 1);
    let v0 = game.version();
    game.leave(9_999);
    assert_eq!(game.version(), v0, "no-op leave does not bump");
    game.leave(101);
    assert!(game.version() > v0);
}

#[test]
fn a_word_of_control_characters_leaves_no_double_space() {
    assert_eq!(clean_name("a \u{1} b"), "a b");
    assert_eq!(clean_name("\u{1}\u{2} Eli"), "Eli");
    assert_eq!(clean_name("abcdefghijk lm"), "abcdefghijk");
}

#[test]
fn new_settings_wait_for_the_next_question() {
    let mut game = table(2, 2);
    game.start(100).expect("start");
    game.tick(5_000);
    assert_eq!(game.remaining_ms(), 15_000);
    game.set_settings(Settings { question_count: 2, answer_time_ms: 10_000 });
    assert_eq!(game.remaining_ms(), 15_000, "the open countdown keeps its time");
    game.tick(9_999);
    assert!(matches!(game.phase(), Phase::Question { index: 0, .. }));
    game.tick(6_001);
    assert!(matches!(game.phase(), Phase::Reveal { index: 0, .. }));
    game.tick(REVEAL_MS);
    game.tick(STANDINGS_MS);
    assert!(matches!(game.phase(), Phase::Question { index: 1, .. }));
    assert_eq!(game.remaining_ms(), 10_000, "the next question takes the new time");
    assert_eq!(game.question_time_ms(), 10_000);
}

#[test]
fn only_players_the_open_question_scores_need_room() {
    let mut game = table(2, 1);
    assert!(game.has_room());
    game.start(100).expect("start");
    game.answer(100, 1).expect("right");
    game.answer(101, 0).expect("wrong");
    assert!(game.has_room());
}
