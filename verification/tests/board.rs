use party_quiz::board::{
    BestEntry, add_best, best_blob, deck_filters, draw_deck, lobby_url, mark_played, parse_best,
    played_ids, podium_status, record_best, reload_deck, reveal_tally, screen_for,
    settings_from, standings_status, status_line,
};
use party_quiz::effects::Kind;
use party_quiz::manifest_params::{CategoryPack, Difficulty, Params};
use party_quiz::model::{Game, Phase, PlayerColor, QuestionDifficulty, Settings};
use party_quiz::pack::{Rng, parse_tsv, shuffle};

const POOL: &str = "science-1\tScience\teasy\tQ1\tA\tB\tC\tD\t0\t\n\
science-2\tScience\thard\tQ2\tA\tB\tC\tD\t1\t\n\
science-3\tScience\tmedium\tQ3\tA\tB\tC\tD\t2\t\n\
history-1\tHistory\thard\tQ4\tA\tB\tC\tD\t3\t\n\
history-2\tHistory\teasy\tQ5\tA\tB\tC\tD\t0\t\n\
food-1\tFood\thard\tQ6\tA\tB\tC\tD\t1\t\n";

fn params() -> Params {
    Params {
        answer_time: 20,
        category_pack: CategoryPack::Science,
        difficulty: Difficulty::Mixed,
        question_count: 2,
        show_player_names: true,
        sounds: true,
    }
}

fn ids(qs: &[party_quiz::model::Question]) -> Vec<String> {
    qs.iter().map(|q| q.id.clone()).collect()
}

#[test]
fn settings_follow_the_params_with_defaults_for_negative_values() {
    assert_eq!(
        settings_from(&params()),
        Settings { question_count: 2, answer_time_ms: 20_000 }
    );
    let odd = Params { answer_time: -5, question_count: -1, ..params() };
    assert_eq!(settings_from(&odd), Settings { question_count: 10, answer_time_ms: 20_000 });
    let long = Params { answer_time: i32::MAX, ..params() };
    assert_eq!(settings_from(&long).answer_time_ms, u32::MAX);
}

#[test]
fn mixed_params_filter_nothing() {
    assert_eq!(deck_filters(&params()), (Some("science"), None));
    let mixed = Params { category_pack: CategoryPack::Mixed, difficulty: Difficulty::Hard, ..params() };
    assert_eq!(deck_filters(&mixed), (None, Some(QuestionDifficulty::Hard)));
}

#[test]
fn the_deck_skips_played_questions_until_too_few_are_left() {
    let all = parse_tsv(POOL);
    let played = vec![String::from("science-1")];
    let (deck, restarted) = draw_deck(all.clone(), Some("science"), None, &played, 2, 7);
    assert!(!restarted);
    let mut expected = vec![all[1].clone(), all[2].clone()];
    shuffle(&mut expected, &mut Rng::new(7));
    assert_eq!(ids(&deck), ids(&expected));
    let played = vec![String::from("science-1"), String::from("science-2")];
    let (deck, restarted) = draw_deck(all, Some("science"), None, &played, 2, 7);
    assert!(restarted, "one unplayed question cannot fill two");
    assert_eq!(deck.len(), 3);
}

#[test]
fn reloading_the_deck_loads_the_drawn_questions() {
    let mut game = Game::new(settings_from(&params()));
    let before = game.version();
    let restarted = reload_deck(&mut game, parse_tsv(POOL), &params(), &[], 3);
    assert!(!restarted);
    assert_eq!(game.questions_available(), 3);
    assert!(game.version() != before);
}

#[test]
fn the_played_record_skips_empty_pieces_and_caps_its_length() {
    assert_eq!(played_ids("a,,b,"), ["a", "b"]);
    assert!(played_ids("").is_empty());
    assert_eq!(mark_played("a,b", "b"), None, "already listed: nothing to write");
    assert_eq!(mark_played("a,b", "c").as_deref(), Some("a,b,c"));
    assert_eq!(mark_played("", "c").as_deref(), Some("c"));
    let full: Vec<String> = (0..2_000).map(|i| format!("q{i}")).collect();
    let stored = full.join(",");
    let next = mark_played(&stored, "new").expect("written");
    let back = played_ids(&next);
    assert_eq!(back.len(), 2_000);
    assert_eq!(back[0], "q1", "the oldest goes first");
    assert_eq!(back[1_999], "new");
}

#[test]
fn the_best_list_reads_back_what_it_stores() {
    let entries = vec![
        BestEntry { score: 9_420, name: String::from("Marta"), date: String::from("1 May") },
        BestEntry { score: 800, name: String::from("A|B"), date: String::new() },
    ];
    let blob = best_blob(&entries);
    assert_eq!(blob, "9420|Marta|1 May\n800|A B|\n");
    let back = parse_best(&blob);
    assert_eq!(back[0], entries[0]);
    assert_eq!(back[1].name, "A B");
    assert_eq!(back[1].date, "");
}

#[test]
fn unreadable_best_lines_are_skipped() {
    let back = parse_best("12|Eli|today|late\nnope\n-3|X|y\r\n7|Bo\r\n");
    assert_eq!(back.len(), 2);
    assert_eq!(back[0].date, "today|late");
    assert_eq!((back[1].score, back[1].name.as_str(), back[1].date.as_str()), (7, "Bo", ""));
}

#[test]
fn the_best_list_ranks_ties_in_arrival_order_and_keeps_ten() {
    let mut entries: Vec<BestEntry> = (0..10)
        .map(|i| BestEntry { score: 100 * (10 - i), name: format!("P{i}"), date: String::new() })
        .collect();
    entries.swap(0, 9);
    let ranked = add_best(
        entries,
        BestEntry { score: 500, name: String::from("New"), date: String::new() },
    );
    let names: Vec<&str> = ranked.iter().map(|e| e.name.as_str()).collect();
    assert_eq!(names, ["P0", "P1", "P2", "P3", "P4", "P5", "New", "P6", "P7", "P8"]);
}

#[test]
fn the_winner_is_recorded_only_with_points() {
    let mut game = Game::new(Settings { question_count: 1, answer_time_ms: 20_000 });
    game.load_questions(parse_tsv(POOL));
    game.join("Eli", PlayerColor::Coral, 1).expect("seat");
    game.join("Bo", PlayerColor::Blue, 2).expect("seat");
    assert!(record_best(&game, "", "today").is_none());
    game.start(1).expect("start");
    let correct = game.current_question().expect("question").correct;
    game.answer(2, correct).expect("answer");
    game.tick(20_000);
    let best = record_best(&game, "5000|Old|then\n", "today").expect("recorded");
    assert_eq!(best.len(), 2);
    assert_eq!((best[0].name.as_str(), best[1].name.as_str()), ("Old", "Bo"));
    assert_eq!(best[1].date, "today");
}

#[test]
fn status_lines_read_as_the_board_shows_them() {
    assert_eq!(status_line(&params()), "2 questions \u{b7} Science and space");
    let odd = Params { question_count: -3, category_pack: CategoryPack::Mixed, ..params() };
    assert_eq!(status_line(&odd), "-3 questions \u{b7} Mixed");
    assert_eq!(standings_status(10, 2, 1_000), "After question 3 \u{b7} 7 to go \u{b7} Next in 4 s");
    assert_eq!(standings_status(3, 2, 0), "After question 3 \u{b7} Podium in 5 s");
    assert_eq!(podium_status(29_999), "Host taps New game \u{b7} Lobby in 1 s");
    assert_eq!(podium_status(40_000), "Host taps New game \u{b7} Lobby in 0 s");
}

#[test]
fn the_lobby_shows_an_address_once_the_network_and_port_are_up() {
    assert_eq!(lobby_url("", 8080), None);
    assert_eq!(lobby_url("10.0.0.2", 0), None);
    assert_eq!(lobby_url("10.0.0.2", 8080).as_deref(), Some("http://10.0.0.2:8080/"));
}

#[test]
fn the_board_picks_the_screen_and_frame_rate_by_phase() {
    let mut game = Game::new(Settings { question_count: 1, answer_time_ms: 20_000 });
    assert_eq!(screen_for(&game), (Kind::Lobby, 1_000));
    game.load_questions(parse_tsv(POOL));
    game.join("Eli", PlayerColor::Coral, 1).expect("seat");
    game.join("Bo", PlayerColor::Blue, 2).expect("seat");
    game.start(1).expect("start");
    assert_eq!(screen_for(&game), (Kind::Question, 100));
    game.tick(20_000);
    assert!(matches!(game.phase(), Phase::Reveal { .. }));
    assert_eq!(screen_for(&game), (Kind::Reveal, 250));
}

#[test]
fn the_reveal_tallies_answers_names_and_the_fastest_right_one() {
    let mut game = Game::new(Settings { question_count: 1, answer_time_ms: 20_000 });
    game.load_questions(parse_tsv(POOL));
    for (i, name) in ["Eli", "Marta", "Jonas", "Petra"].iter().enumerate() {
        game.join(name, PlayerColor::ALL[i], i as u64 + 1).expect("seat");
    }
    game.start(1).expect("start");
    let correct = game.current_question().expect("question").correct;
    let wrong = (correct + 1) % 4;
    game.tick(1_000);
    game.answer(3, wrong).expect("answer");
    game.tick(1_000);
    game.answer(2, correct).expect("answer");
    game.answer(1, correct).expect("answer");
    let tally = reveal_tally(&game, correct);
    assert_eq!(tally.counts[correct], 2);
    assert_eq!(tally.counts[wrong], 1);
    assert_eq!(tally.names[correct], "Eli, Marta");
    assert_eq!(tally.names[wrong], "Jonas");
    assert_eq!(tally.fastest, Some(0), "tied at 2 s: the earlier seat is named");
}
