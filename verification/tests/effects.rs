use party_quiz::effects::{
    Cue, FrameMemory, Kind, Sound, correct_share, frame_cues, kind, seconds_left,
};
use party_quiz::model::{Game, Phase, PlayerColor, Question, QuestionDifficulty, Settings};

fn question(n: usize) -> Question {
    Question {
        id: format!("science-{n}"),
        category: String::from("Science"),
        difficulty: QuestionDifficulty::Easy,
        text: String::from("Q?"),
        answers: [
            String::from("A"),
            String::from("B"),
            String::from("C"),
            String::from("D"),
        ],
        correct: 2,
        why: None,
    }
}

fn table(players: usize, questions: usize) -> Game {
    let mut game = Game::new(Settings {
        question_count: questions,
        answer_time_ms: 20_000,
    });
    game.load_questions((0..questions).map(question).collect());
    for (i, color) in PlayerColor::ALL.iter().enumerate().take(players) {
        game.join(&format!("P{i}"), *color, 100 + i as u64).expect("seat");
    }
    game
}

#[test]
fn seconds_round_up() {
    assert_eq!(seconds_left(0), 0);
    assert_eq!(seconds_left(1), 1);
    assert_eq!(seconds_left(1_000), 1);
    assert_eq!(seconds_left(1_001), 2);
}

#[test]
fn every_phase_has_its_screen_kind() {
    assert_eq!(kind(Phase::Lobby), Kind::Lobby);
    assert_eq!(
        kind(Phase::Question { index: 3, elapsed_ms: 0, all_answered_at: None }),
        Kind::Question
    );
    assert_eq!(kind(Phase::Reveal { index: 0, elapsed_ms: 9 }), Kind::Reveal);
    assert_eq!(kind(Phase::Standings { index: 0, elapsed_ms: 9 }), Kind::Standings);
    assert_eq!(kind(Phase::Podium { elapsed_ms: 9 }), Kind::Podium);
}

#[test]
fn the_share_counts_connected_players_with_the_right_answer() {
    let mut game = table(3, 1);
    assert_eq!(correct_share(&game), (0, 3));
    game.start(100).expect("start");
    game.answer(100, 2).expect("right");
    game.answer(101, 1).expect("wrong");
    game.answer(102, 2).expect("right");
    game.leave(102);
    assert_eq!(correct_share(&game), (1, 2));
}

#[test]
fn a_join_in_the_lobby_flashes_the_newcomers_colour() {
    let mut game = Game::default();
    let memory = FrameMemory::new();
    let (memory, entered, cues) = frame_cues(memory, &game, true);
    assert_eq!(entered, None);
    assert!(cues.is_empty());
    game.join("Eli", PlayerColor::Lime, 1).expect("seat");
    let (memory, entered, cues) = frame_cues(memory, &game, true);
    assert_eq!(entered, None);
    assert_eq!(cues, [Cue::JoinFlash(PlayerColor::Lime), Cue::Play(Sound::Join)]);
    let (_, _, cues) = frame_cues(memory, &game, true);
    assert!(cues.is_empty(), "the same table flashes once");
}

#[test]
fn the_first_question_starts_with_the_start_sound_and_warns_once() {
    let mut game = table(2, 2);
    let (memory, _, _) = frame_cues(FrameMemory::new(), &game, true);
    game.start(100).expect("start");
    let (memory, entered, cues) = frame_cues(memory, &game, true);
    assert_eq!(entered, Some(Kind::Question));
    assert_eq!(cues, [Cue::LightsOff, Cue::Play(Sound::Start)]);
    game.tick(15_500);
    let (memory, entered, cues) = frame_cues(memory, &game, true);
    assert_eq!(entered, None);
    assert_eq!(cues, [Cue::CountdownChase(4_500)]);
    game.tick(1_600);
    let (memory, _, cues) = frame_cues(memory, &game, true);
    assert_eq!(cues, [Cue::Play(Sound::Tick)], "three seconds left: a tick, no second chase");
    game.answer(101, 2).expect("answer");
    let (_, _, cues) = frame_cues(memory, &game, true);
    assert_eq!(cues, [Cue::Play(Sound::Lock)]);
}

#[test]
fn with_sounds_off_only_the_strip_moves() {
    let mut game = table(2, 1);
    let (memory, _, _) = frame_cues(FrameMemory::new(), &game, false);
    game.start(100).expect("start");
    let (_, entered, cues) = frame_cues(memory, &game, false);
    assert_eq!(entered, Some(Kind::Question));
    assert_eq!(cues, [Cue::LightsOff]);
}

#[test]
fn the_reveal_glows_green_when_most_had_it_and_the_podium_chases_the_winner() {
    let mut game = table(2, 1);
    game.start(100).expect("start");
    let (memory, _, _) = frame_cues(FrameMemory::new(), &game, true);
    game.answer(100, 2).expect("right");
    game.answer(101, 0).expect("wrong");
    game.tick(20_000);
    let (memory, entered, cues) = frame_cues(memory, &game, true);
    assert_eq!(entered, Some(Kind::Reveal));
    assert_eq!(
        cues,
        [Cue::RevealGlow { majority: true }, Cue::Play(Sound::Correct)],
        "one of two is half: the glow is green"
    );
    game.end(100).expect("end");
    let (_, entered, cues) = frame_cues(memory, &game, true);
    assert_eq!(entered, Some(Kind::Podium));
    assert_eq!(cues, [Cue::WinnerChase(PlayerColor::Coral), Cue::Play(Sound::Fanfare)]);
}
