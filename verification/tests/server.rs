use party_quiz::model::{Game, PlayerColor, Question, QuestionDifficulty, Settings, push_usize};
use party_quiz::server::{
    EMPTY_HEADERS, Effect, HTML_HEADERS, JSON_HEADERS, MAX_BODY_BYTES, Request, Response,
    form_value, handle, parse_hex, percent_decode, push_hex, push_json_str, snapshot,
    split_query,
};

const PAGE: &[u8] = b"<html>controller</html>";

fn game_with_questions() -> Game {
    let mut game = Game::new(Settings::default());
    game.load_questions(vec![Question {
        id: String::from("q1"),
        category: String::from("Science"),
        difficulty: QuestionDifficulty::Easy,
        text: String::from("Q?"),
        answers: [
            String::from("A"),
            String::from("B"),
            String::from("C"),
            String::from("D"),
        ],
        correct: 1,
        why: Some(String::from("Because \"B\".")),
    }]);
    game
}

fn post<'a>(path: &'a str, body: &'a str) -> Request<'a> {
    Request {
        method: "POST",
        path,
        body: body.as_bytes(),
    }
}

fn get(path: &str) -> Request<'_> {
    Request {
        method: "GET",
        path,
        body: b"",
    }
}

fn body_text(r: &Response) -> String {
    String::from_utf8(r.body.clone()).expect("utf8 body")
}

#[test]
fn the_page_is_served_at_the_root_and_nothing_else_exists() {
    let mut game = Game::default();
    let (r, e) = handle(&mut game, &get("/"), PAGE, 7);
    assert_eq!((r.status, r.body.as_slice(), e), (200, PAGE, Effect::Unchanged));
    assert!(r.headers.starts_with("Content-Type: text/html"));
    let (r, _) = handle(&mut game, &get("/admin"), PAGE, 7);
    assert_eq!(r.status, 404);
    let (r, _) = handle(&mut game, &post("/", ""), PAGE, 7);
    assert_eq!(r.status, 404);
}

#[test]
fn every_header_block_ends_with_crlf_so_the_host_can_add_the_blank_line() {
    // Mirrors the host's framing: `Content-Length: n\r\n<headers>\r\n<body>`.
    for headers in [HTML_HEADERS, JSON_HEADERS, EMPTY_HEADERS] {
        assert!(headers.ends_with("\r\n"), "{headers:?}");
        assert!(!headers.ends_with("\r\n\r\n"), "{headers:?}");
        for line in headers.trim_end().split("\r\n") {
            assert!(line.contains(": "), "{line:?} is not a header line");
        }
    }
}

#[test]
fn oversized_bodies_are_refused_before_parsing() {
    let mut game = Game::default();
    let big = "x".repeat(MAX_BODY_BYTES + 1);
    let (r, _) = handle(&mut game, &post("/join", &big), PAGE, 7);
    assert_eq!(
        (r.status, body_text(&r)),
        (400, String::from("{\"error\":\"too_large\"}"))
    );
}

#[test]
fn a_phone_joins_and_gets_its_token_and_cleaned_name() {
    let mut game = Game::default();
    let token = 0xDEAD_BEEF_u64;
    let (r, e) = handle(
        &mut game,
        &post("/join", "name=%20Marta+Nov%C3%A1k%20&color=blue"),
        PAGE,
        token,
    );
    assert_eq!((r.status, e), (200, Effect::GameChanged));
    assert_eq!(
        body_text(&r),
        "{\"token\":\"00000000deadbeef\",\"seat\":0,\"name\":\"Marta Novák\",\"color\":\"blue\"}"
    );
    let (r, _) = handle(
        &mut game,
        &post("/join", "name=X&color=pink"),
        PAGE,
        token,
    );
    assert_eq!(body_text(&r), "{\"error\":\"bad_color\"}");
    let (r, _) = handle(
        &mut game,
        &post("/join", "name=Y&color=blue"),
        PAGE,
        token,
    );
    assert_eq!(body_text(&r), "{\"error\":\"color_taken\"}");
}

#[test]
fn state_is_204_when_the_phone_already_has_this_version() {
    let mut game = game_with_questions();
    let (r, _) = handle(&mut game, &get("/state"), PAGE, 1);
    assert_eq!(r.status, 200);
    let mut same = String::from("/state?v=");
    push_usize(&mut same, usize::try_from(game.version()).expect("fits"));
    let (r, _) = handle(&mut game, &get(&same), PAGE, 1);
    assert_eq!((r.status, r.body.len()), (204, 0));
}

#[test]
fn the_snapshot_carries_players_question_and_the_callers_seat_but_no_text() {
    let mut game = game_with_questions();
    game.join("Eli", PlayerColor::Coral, 0xA).expect("seat");
    game.join("Bo", PlayerColor::Blue, 0xB).expect("seat");
    game.start(0xA).expect("start");
    game.tick(5_000);
    game.answer(0xB, 1).expect("answer");
    let json = snapshot(&game, Some(0xB));
    assert!(json.contains("\"phase\":\"question\""));
    assert!(json.contains("\"remaining\":15000"));
    assert!(json.contains("\"answered\":1"));
    assert!(json.contains("\"you\":{\"seat\":1,\"name\":\"Bo\""));
    assert!(json.contains("\"choice\":1"));
    assert!(json.contains("\"host\":false"));
    assert!(
        !json.contains("Q?"),
        "question text never reaches the phone"
    );
    assert!(
        !json.contains("\"correct\""),
        "no reveal before the countdown ends"
    );
    game.tick(20_000);
    let json = snapshot(&game, Some(0xB));
    assert!(json.contains("\"phase\":\"reveal\""));
    assert!(
        json.contains(
            "\"r\":{\"correct\":1,\"counts\":[0,1,0,0],\"why\":\"Because \\\"B\\\".\"}"
        )
    );
    assert!(json.contains("\"correct\":true"));
}

#[test]
fn answers_and_host_actions_need_a_valid_token() {
    let mut game = game_with_questions();
    handle(
        &mut game,
        &post("/join", "name=Eli&color=coral"),
        PAGE,
        0xA,
    );
    handle(
        &mut game,
        &post("/join", "name=Bo&color=blue"),
        PAGE,
        0xB,
    );
    let (r, _) = handle(
        &mut game,
        &post("/host", "t=000000000000000b&a=start"),
        PAGE,
        0xB,
    );
    assert_eq!(body_text(&r), "{\"error\":\"not_host\"}");
    let (r, e) = handle(&mut game, &post("/host", "t=a&a=start"), PAGE, 0xB);
    assert_eq!((r.status, e), (200, Effect::GameChanged));
    let (r, _) = handle(&mut game, &post("/answer", "t=zz&c=1"), PAGE, 0xB);
    assert_eq!(body_text(&r), "{\"error\":\"bad_token\"}");
    let (r, _) = handle(&mut game, &post("/answer", "t=b&c=9"), PAGE, 0xB);
    assert_eq!(body_text(&r), "{\"error\":\"bad_choice\"}");
    let (r, e) = handle(&mut game, &post("/answer", "t=b&c=2"), PAGE, 0xB);
    assert_eq!(
        (body_text(&r), e),
        (String::from("{\"ok\":true}"), Effect::GameChanged)
    );
    let (r, _) = handle(&mut game, &post("/answer", "t=b&c=2"), PAGE, 0xB);
    assert_eq!(body_text(&r), "{\"error\":\"already_answered\"}");
    let (r, _) = handle(&mut game, &post("/host", "t=a&a=dance"), PAGE, 0xB);
    assert_eq!(body_text(&r), "{\"error\":\"bad_action\"}");
}

#[test]
fn polling_with_a_token_seats_a_returning_phone() {
    let mut game = Game::default();
    game.join("Eli", PlayerColor::Coral, 0xA).expect("seat");
    game.leave(0xA);
    assert_eq!(game.connected().len(), 0);
    let (_, e) = handle(&mut game, &get("/state?t=a&v=0"), PAGE, 1);
    assert_eq!(e, Effect::GameChanged);
    assert_eq!(game.connected().len(), 1);
}

#[test]
fn wire_helpers_round_trip() {
    assert_eq!(split_query("/state?v=3"), ("/state", "v=3"));
    assert_eq!(split_query("/"), ("/", ""));
    assert_eq!(
        form_value("a=1&b=two+words&c=%41", "b").as_deref(),
        Some("two words")
    );
    assert_eq!(form_value("a=1&b=2", "c"), None);
    assert_eq!(percent_decode("100%"), "100%");
    assert_eq!(percent_decode("%4"), "%4");
    assert_eq!(parse_hex("ff"), Some(255));
    assert_eq!(parse_hex("12345678123456789"), None);
    assert_eq!(parse_hex(""), None);
    let mut s = String::new();
    push_hex(&mut s, 0x1234_ABCD);
    assert_eq!(parse_hex(&s), Some(0x1234_ABCD));
    let mut j = String::new();
    push_json_str(&mut j, "a\"b\\c\n\u{1}");
    assert_eq!(j, "\"a\\\"b\\\\c\\n\\u0001\"");
}
