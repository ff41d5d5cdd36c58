use party_quiz::model::{Game, PlayerColor, Question, QuestionDifficulty, Settings};
use party_quiz::server::{Effect, Request, Response, form_value, handle, percent_decode, snapshot};

const PAGE: &[u8] = b"<html>controller</html>";

fn post<'a>(path: &'a str, body: &'a [u8]) -> Request<'a> {
    Request { method: "POST", path, body }
}

fn text(r: &Response) -> String {
    String::from_utf8(r.body.clone()).expect("utf8 body")
}

fn pool(n: usize) -> Vec<Question> {
    (0..n)
        .map(|i| Question {
            id: format!("q{i}"),
            category: String::from("Science"),
            difficulty: QuestionDifficulty::Hard,
            text: String::from("Q?"),
            answers: [
                String::from("A"),
                String::from("B"),
                String::from("C"),
                String::from("D"),
            ],
            correct: 3,
            why: None,
        })
        .collect()
}

#[test]
fn malformed_utf8_decodes_to_the_replacement_character() {
    assert_eq!(percent_decode("%C3"), "\u{fffd}");
    assert_eq!(percent_decode("%C3%A1+x"), "\u{e1} x");
}

#[test]
fn a_body_that_is_not_utf8_reads_as_empty() {
    let mut game = Game::default();
    let (r, e) = handle(&mut game, &post("/join", b"name=Eli&color=blue\xff"), PAGE, 1);
    assert_eq!((text(&r), e), (String::from("{\"error\":\"bad_color\"}"), Effect::Unchanged));
}

#[test]
fn every_join_refusal_has_its_code() {
    let mut game = Game::default();
    let (r, _) = handle(&mut game, &post("/join", b"name=%20&color=blue"), PAGE, 1);
    assert_eq!(text(&r), "{\"error\":\"empty_name\"}");
    for (i, c) in ["coral", "blue", "lime", "violet", "amber", "teal"].iter().enumerate() {
        let body = format!("name=P{i}&color={c}");
        let (r, _) = handle(&mut game, &post("/join", body.as_bytes()), PAGE, i as u64 + 1);
        assert_eq!(r.status, 200);
    }
    for i in 6..12 {
        let body = format!("name=Q{i}&color=blue");
        handle(&mut game, &post("/join", body.as_bytes()), PAGE, i as u64 + 1);
    }
    let (r, _) = handle(&mut game, &post("/join", b"name=Late&color=blue"), PAGE, 99);
    assert_eq!(text(&r), "{\"error\":\"full\"}");
}

#[test]
fn every_action_refusal_has_its_code() {
    let mut game = Game::new(Settings::default());
    game.join("Eli", PlayerColor::Coral, 0xA).expect("seat");
    let (r, _) = handle(&mut game, &post("/host", b"t=a&a=start"), PAGE, 1);
    assert_eq!(text(&r), "{\"error\":\"not_enough_players\"}");
    game.join("Bo", PlayerColor::Blue, 0xB).expect("seat");
    let (r, _) = handle(&mut game, &post("/host", b"t=a&a=start"), PAGE, 1);
    assert_eq!(text(&r), "{\"error\":\"no_questions\"}");
    let (r, _) = handle(&mut game, &post("/host", b"t=c&a=start"), PAGE, 1);
    assert_eq!(text(&r), "{\"error\":\"unknown_token\"}");
    let (r, _) = handle(&mut game, &post("/host", b"t=a&a=end"), PAGE, 1);
    assert_eq!(text(&r), "{\"error\":\"wrong_phase\"}");
    let (r, _) = handle(&mut game, &post("/host", b"t=a"), PAGE, 1);
    assert_eq!(text(&r), "{\"error\":\"bad_action\"}");
    let (r, _) = handle(&mut game, &post("/leave", b"c=1"), PAGE, 1);
    assert_eq!(text(&r), "{\"error\":\"bad_token\"}");
}

#[test]
fn the_host_starts_skips_ends_and_starts_over() {
    let mut game = Game::new(Settings::default());
    game.load_questions(pool(3));
    game.join("Eli", PlayerColor::Coral, 0xA).expect("seat");
    game.join("Bo", PlayerColor::Blue, 0xB).expect("seat");
    for (action, phase) in [("start", "question"), ("skip", "reveal"), ("end", "podium"), ("new", "lobby")] {
        let body = format!("t=a&a={action}");
        let (r, e) = handle(&mut game, &post("/host", body.as_bytes()), PAGE, 1);
        assert_eq!((text(&r), e), (String::from("{\"ok\":true}"), Effect::GameChanged));
        assert!(snapshot(&game, None).contains(&format!("\"phase\":\"{phase}\"")));
    }
}

#[test]
fn leaving_twice_changes_the_game_once() {
    let mut game = Game::default();
    game.join("Eli", PlayerColor::Coral, 0xA).expect("seat");
    let (r, e) = handle(&mut game, &post("/leave", b"t=a"), PAGE, 1);
    assert_eq!((text(&r), e), (String::from("{\"ok\":true}"), Effect::GameChanged));
    let (r, e) = handle(&mut game, &post("/leave", b"t=a"), PAGE, 1);
    assert_eq!((text(&r), e), (String::from("{\"ok\":true}"), Effect::Unchanged));
}

#[test]
fn the_snapshot_of_an_empty_lobby_is_exact() {
    let game = Game::default();
    assert_eq!(
        snapshot(&game, Some(7)),
        "{\"v\":1,\"phase\":\"lobby\",\"max\":12,\"poll\":1000,\"start\":\"players\",\"players\":[]}"
    );
}

#[test]
fn the_snapshot_is_the_same_whatever_the_question_text() {
    let mut a = Game::new(Settings::default());
    let mut b = Game::new(Settings::default());
    let mut other = pool(2);
    for q in &mut other {
        q.text = String::from("A completely different question?");
        q.answers[0] = String::from("Zebra");
    }
    a.load_questions(pool(2));
    b.load_questions(other);
    for g in [&mut a, &mut b] {
        g.join("Eli", PlayerColor::Coral, 0xA).expect("seat");
        g.join("Bo", PlayerColor::Blue, 0xB).expect("seat");
        g.start(0xA).expect("start");
        g.answer(0xB, 3).expect("answer");
        g.tick(20_000);
    }
    assert_eq!(snapshot(&a, Some(0xB)), snapshot(&b, Some(0xB)));
    assert!(!snapshot(&b, Some(0xB)).contains("Zebra"));
}

#[test]
fn plain_and_encoded_fields_decode_as_sent() {
    assert_eq!(form_value("t=a&c=2", "t").as_deref(), Some("a"));
    assert_eq!(form_value("color=blue", "color").as_deref(), Some("blue"));
    assert_eq!(form_value("name=Nov%C3%A1k", "name").as_deref(), Some("Nov\u{e1}k"));
}
