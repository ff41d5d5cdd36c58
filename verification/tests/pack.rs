use party_quiz::model::{QuestionDifficulty};
use party_quiz::pack::{Rng, pack_of, parse_tsv, select, shuffle};

const SAMPLE: &str = "# comment line\n\
science-1\tScience\teasy\tWhat is H2O?\tWater\tSalt\tSugar\tOil\t0\tTwo hydrogens, one oxygen.\n\
\n\
history-1\tHistory\thard\tWhen?\t1\t2\t3\t4\t3\t\n\
bad-1\tBroken\teasy\tMissing answers\tA\tB\n\
bad-2\tBroken\tmedium\tBad index\tA\tB\tC\tD\t7\tx\n\
bad-3\tBroken\tlegendary\tBad difficulty\tA\tB\tC\tD\t0\tx\n";

/// A small pack in the starter pack's format: two packs, three difficulties.
const POOL: &str = "science-1\tScience\teasy\tQ1\tA\tB\tC\tD\t0\t\n\
science-2\tScience\thard\tQ2\tA\tB\tC\tD\t1\t\n\
science-3\tScience\tmedium\tQ3\tA\tB\tC\tD\t2\t\n\
history-1\tHistory\thard\tQ4\tA\tB\tC\tD\t3\t\n\
history-2\tHistory\teasy\tQ5\tA\tB\tC\tD\t0\t\n\
food-1\tFood\thard\tQ6\tA\tB\tC\tD\t1\t\n";

#[test]
fn good_lines_parse_and_bad_lines_are_dropped() {
    let qs = parse_tsv(SAMPLE);
    assert_eq!(qs.len(), 2);
    assert_eq!(qs[0].id, "science-1");
    assert_eq!(qs[0].answers[0], "Water");
    assert_eq!(qs[0].correct, 0);
    assert_eq!(qs[0].why.as_deref(), Some("Two hydrogens, one oxygen."));
    assert_eq!(qs[1].difficulty, QuestionDifficulty::Hard);
    assert_eq!(qs[1].why, None, "an empty why is None, not an empty string");
    assert_eq!(pack_of(&qs[1]), "history");
}

#[test]
fn select_filters_by_pack_difficulty_and_history() {
    let qs = parse_tsv(POOL);
    let all = qs.len();
    assert_eq!(select(qs.clone(), None, None, &[]).len(), all);
    let science = select(qs.clone(), Some("science"), None, &[]);
    assert!(science.iter().all(|q| pack_of(q) == "science"));
    let hard = select(qs.clone(), None, Some(QuestionDifficulty::Hard), &[]);
    assert!(
        hard.iter()
            .all(|q| q.difficulty == QuestionDifficulty::Hard)
    );
    let played = vec![qs[0].id.clone(), qs[1].id.clone()];
    assert_eq!(select(qs, None, None, &played).len(), all - 2);
}

#[test]
fn shuffle_is_a_permutation_and_seed_dependent() {
    let mut a: Vec<usize> = (0..50).collect();
    let mut b = a.clone();
    shuffle(&mut a, &mut Rng::new(1));
    shuffle(&mut b, &mut Rng::new(2));
    assert_ne!(a, b);
    let mut sorted = a.clone();
    sorted.sort_unstable();
    assert_eq!(sorted, (0..50).collect::<Vec<_>>());
    let mut c: Vec<usize> = (0..50).collect();
    shuffle(&mut c, &mut Rng::new(1));
    assert_eq!(a, c, "same seed, same order");
    let mut empty: Vec<usize> = Vec::new();
    shuffle(&mut empty, &mut Rng::new(0));
}

#[test]
fn fields_are_trimmed_and_blank_lines_skipped() {
    let qs = parse_tsv("  \t \n science-9 \t Science \t easy \t Q? \t A \t B \t C \t D \t 2 \t  \n");
    assert_eq!(qs.len(), 1);
    assert_eq!(qs[0].id, "science-9");
    assert_eq!(qs[0].category, "Science");
    assert_eq!(qs[0].answers[3], "D");
    assert_eq!(qs[0].correct, 2);
    assert_eq!(qs[0].why, None);
    assert_eq!(pack_of(&qs[0]), "science");
}
