use party_quiz::manifest_params::{CategoryPack, Difficulty, Params};

#[test]
fn every_pack_reads_back_from_its_manifest_value() {
    for pack in CategoryPack::ALL {
        assert_eq!(CategoryPack::from_manifest_value(pack.as_manifest_value()), Some(pack));
    }
    assert_eq!(CategoryPack::from_manifest_value("Science"), None);
    assert_eq!(CategoryPack::Entertainment.as_manifest_label(), "Film, TV and music");
    assert_eq!(CategoryPack::Bitcoin.as_manifest_value(), "bitcoin");
}

#[test]
fn every_difficulty_reads_back_from_its_manifest_value() {
    for d in Difficulty::ALL {
        assert_eq!(Difficulty::from_manifest_value(d.as_manifest_value()), Some(d));
    }
    assert_eq!(Difficulty::from_manifest_value("legendary"), None);
    assert_eq!(Difficulty::Medium.as_manifest_label(), "Medium");
}

#[test]
fn changed_keys_are_listed_in_field_order() {
    let a = Params {
        answer_time: 20,
        category_pack: CategoryPack::Mixed,
        difficulty: Difficulty::Mixed,
        question_count: 10,
        show_player_names: true,
        sounds: true,
    };
    assert!(a.changed_keys(&a).is_empty());
    let b = Params { sounds: false, answer_time: 30, difficulty: Difficulty::Hard, ..a };
    assert_eq!(a.changed_keys(&b), ["answer_time", "difficulty", "sounds"]);
    assert_eq!(b.changed_keys(&a), a.changed_keys(&b));
}
