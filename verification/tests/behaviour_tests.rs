use vdb::persist::Row;
use vdb::value::{TIMESTAMP_MAX, TIMESTAMP_MIN};
use vdb::{Data, Db, DbError, Entry, Predicate, PredicateType, RowId, Timestamp};

fn words() -> Db {
    let mut db = Db::new("words");
    db.add_row(vec![
        Entry::new_string("set", "es-en"),
        Entry::new_string("name", "disfrutar"),
    ]);
    db.add_row(vec![
        Entry::new_string("set", "es-en"),
        Entry::new_string("name", "coche"),
    ]);
    db
}

fn sorted(mut row_ids: Vec<RowId>) -> Vec<RowId> {
    row_ids.sort();
    row_ids
}

#[test]
fn a_value_is_shown_by_its_kind() {
    assert_eq!(Db::db_string("hola").to_string(), "hola");
    assert_eq!(Db::db_string("").to_string(), "");
    assert_eq!(Db::db_i32(0).to_string(), "0");
    assert_eq!(Db::db_i32(7).to_string(), "7");
    assert_eq!(Db::db_i32(-42).to_string(), "-42");
    assert_eq!(Db::db_i32(i32::MAX).to_string(), "2147483647");
    assert_eq!(Db::db_i32(i32::MIN).to_string(), "-2147483648");
    let moment = Db::db_datetime("2013-11-22 12:34:56").unwrap();
    assert_eq!(moment.to_string(), "2013-11-22 12:34");
}

#[test]
fn only_a_timestamp_has_a_date() {
    let moment = Db::db_datetime("2013-11-22 12:34:56").unwrap();
    assert_eq!(moment.date(), Some(String::from("2013-11-22")));
    assert_eq!(Db::db_i32(20131122).date(), None);
    assert_eq!(Db::db_string("2013-11-22").date(), None);
}

#[test]
fn a_timestamp_is_stored_with_its_seconds() {
    let moment = Timestamp::parse("2013-11-22 12:34:56").unwrap();
    assert_eq!(moment.secs(), 1385123696);
    assert_eq!(moment.to_text(), "2013-11-22 12:34:56");
    assert_eq!(Timestamp::parse(&moment.to_text()), Ok(moment));
    let epoch = Timestamp::from_secs(0).unwrap();
    assert_eq!(epoch.to_text(), "1970-01-01 00:00:00");
}

#[test]
fn a_text_that_is_no_timestamp_is_a_format_error() {
    assert_eq!(Db::db_datetime("nonsense"), Err(DbError::FormatError));
    assert_eq!(Db::db_datetime(""), Err(DbError::FormatError));
    assert_eq!(Db::db_datetime("2013-11-22"), Err(DbError::FormatError));
    assert_eq!(Db::db_datetime("2013-13-01 00:00:00"), Err(DbError::FormatError));
    assert_eq!(Db::db_datetime("2013-11-22 24:00:00"), Err(DbError::FormatError));
    assert_eq!(Timestamp::parse("2013-02-30 00:00:00"), Err(DbError::FormatError));
}

#[test]
fn timestamps_span_the_years_0000_to_9999() {
    let first = Timestamp::parse("0000-01-01 00:00:00").unwrap();
    assert_eq!(first.secs(), TIMESTAMP_MIN);
    let last = Timestamp::parse("9999-12-31 23:59:59").unwrap();
    assert_eq!(last.secs(), TIMESTAMP_MAX);
    assert_eq!(last.to_text(), "9999-12-31 23:59:59");
    assert_eq!(first.to_text(), "0000-01-01 00:00:00");
    assert_eq!(Timestamp::from_secs(TIMESTAMP_MAX + 1), None);
    assert_eq!(Timestamp::from_secs(TIMESTAMP_MIN - 1), None);
    assert_eq!(
        Db::db_datetime("+10000-01-01 00:00:00"),
        Err(DbError::FormatError)
    );
    assert_eq!(Timestamp::saturating_from_secs(i64::MAX).secs(), TIMESTAMP_MAX);
    assert_eq!(Timestamp::saturating_from_secs(i64::MIN).secs(), TIMESTAMP_MIN);
    assert_eq!(Timestamp::saturating_from_secs(12).secs(), 12);
}

#[test]
fn now_is_a_timestamp() {
    match Data::now() {
        Data::DbDateTime(moment) => {
            assert!(TIMESTAMP_MIN <= moment.secs() && moment.secs() <= TIMESTAMP_MAX);
        }
        other => panic!("not a timestamp: {:?}", other),
    }
}

#[test]
fn equality_minds_the_kind() {
    assert_ne!(Db::db_string("5"), Db::db_i32(5));
    assert_eq!(Db::db_i32(5), Db::db_i32(5));
    assert_ne!(Db::db_i32(5), Db::db_i32(6));
    let moment = Data::DbDateTime(Timestamp::from_secs(5).unwrap());
    assert_ne!(moment, Db::db_i32(5));
    assert_eq!(moment, Data::DbDateTime(Timestamp::from_secs(5).unwrap()));
    assert!(Db::db_string("a").same(&Db::db_string("a")));
    assert!(!Db::db_string("a").same(&Db::db_string("b")));
    assert_ne!(Entry::new_string("a", "1"), Entry::new_string("b", "1"));
    assert_ne!(Entry::new_string("a", "1"), Entry::new_i32("a", 1));
    assert_eq!(Entry::new_i32("a", 1), Entry::new_i32("a", 1));
    assert_eq!(Entry::new_i32("a", 1).clone(), Entry::new_i32("a", 1));
}

#[test]
fn starts_with_and_contains_hold_between_texts_only() {
    let five = Db::db_i32(5);
    assert_eq!(five.starts_with(&five), false);
    assert_eq!(five.contains(&five), false);
    assert_eq!(Db::db_string("5").starts_with(&five), false);
    assert_eq!(five.contains(&Db::db_string("5")), false);
    let moment = Data::DbDateTime(Timestamp::from_secs(5).unwrap());
    assert_eq!(moment.starts_with(&moment), false);
    assert_eq!(moment.contains(&moment), false);

    let entry = Entry::new_i32("n", 5);
    let starts = Predicate {
        predicate_type: PredicateType::StartsWith,
        entry: Entry::new_i32("n", 5),
    };
    let holds = Predicate {
        predicate_type: PredicateType::Contains,
        entry: Entry::new_i32("n", 5),
    };
    assert_eq!(entry.compare(&starts), false);
    assert_eq!(entry.compare(&holds), false);
    assert_eq!(entry.compare(&Predicate::new_equal_i32("n", 5)), true);
    assert_eq!(entry.compare(&Predicate::new_equal_i32("n", 6)), false);
}

#[test]
fn texts_are_compared_character_by_character() {
    let word = Db::db_string("año nuevo");
    assert!(word.starts_with(&Db::db_string("")));
    assert!(word.contains(&Db::db_string("")));
    assert!(word.starts_with(&Db::db_string("año")));
    assert!(word.contains(&Db::db_string("ñ")));
    assert!(word.contains(&Db::db_string("nuevo")));
    assert!(word.starts_with(&word));
    assert!(word.contains(&word));
    assert!(!word.starts_with(&Db::db_string("nuevo")));
    assert!(!word.contains(&Db::db_string("ano")));
    assert!(!word.starts_with(&Db::db_string("año nuevo ")));
    assert!(!Db::db_string("").contains(&Db::db_string("a")));
}

#[test]
fn any_with_name_ignores_the_value() {
    let any = Predicate::new_any_string("mundo");
    assert!(Entry::new_string("mundo", "world").compare(&any));
    assert!(Entry::new_i32("mundo", 3).compare(&any));
    assert!(!Entry::new_string("tierra", "world").compare(&any));
    let a = Entry::new_string("mundo", "world");
    assert_eq!(a.compare(&Predicate::new_equal_string("mundo", "world")), true);
    assert_eq!(a.compare(&Predicate::new_starts_with("mundo", "worl")), true);
    assert_eq!(a.compare(&Predicate::new_contains("mundo", "orl")), true);
    assert_eq!(a.compare(&Predicate::new_equal_string("mundo", "World")), false);
    assert_eq!(a.compare(&Predicate::new_equal_string("mundo", "planet")), false);
    assert_eq!(a.compare(&Predicate::new_equal_string("mund", "world")), false);
}

#[test]
fn lists_of_entries_are_searched_in_order() {
    let mut entries = vec![
        Entry::new_string("word", "cocina"),
        Entry::new_string("translation", "cuisine"),
        Entry::new_string("translation", "kitchen"),
    ];
    assert!(Entry::check_by_name(&entries, "translation"));
    assert!(!Entry::check_by_name(&entries, "trans"));
    assert!(Entry::check_by_value(&entries, "translation", &Db::db_string("kitchen")));
    assert!(!Entry::check_by_value(&entries, "word", &Db::db_string("kitchen")));
    assert!(Entry::compare_all(&entries, &Predicate::new_contains("translation", "itch")));
    assert!(!Entry::compare_all(&entries, &Predicate::new_contains("word", "itch")));
    assert!(!Entry::compare_all(&[], &Predicate::new_any_string("word")));
    assert_eq!(
        Entry::get_first_by_name(&entries, "translation"),
        Some(Entry::new_string("translation", "cuisine"))
    );
    assert_eq!(Entry::get_first_by_name(&entries, "missing"), None);
    if let Some(entry) = Entry::get_first_by_name_mut(&mut entries, "translation") {
        entry.value = Db::db_string("cooking");
    }
    assert_eq!(entries[1], Entry::new_string("translation", "cooking"));
    assert_eq!(entries[2], Entry::new_string("translation", "kitchen"));
    assert!(Entry::get_first_by_name_mut(&mut entries, "missing").is_none());
}

#[test]
fn a_new_store_is_empty_and_knows_its_name() {
    let db = Db::new("test-db");
    assert_eq!(db.get_name(), "test-db");
    assert_eq!(db.full_filename(), "save/test-db");
    assert_eq!(Db::build_filename("personal"), "save/personal");
    assert_eq!(Db::new("").get_name(), "");
    assert_eq!(db.last_row_id(), RowId(0));
    assert!(db.find_all_row_ids().is_empty());
    assert!(db.find_row_ids_by_name("word").is_empty());
    assert_eq!(db.find_first_row_id_by_name("word"), None);
    assert!(db.find_row_ids_by_predicate(&[], None).is_empty());
}

#[test]
fn identifiers_grow_and_are_never_issued_again() {
    let mut db = Db::new("ids");
    let first = db.add_string("word", "uno");
    let second = db.add_i32("count", 2);
    assert_eq!(first, RowId(1));
    assert_eq!(second, RowId(2));
    db.remove_by_row_id(second);
    let third = db.add_string("word", "tres");
    assert_eq!(third, RowId(3));
    assert_eq!(db.last_row_id(), RowId(3));
    assert_eq!(sorted(db.find_all_row_ids()), vec![RowId(1), RowId(3)]);
}

#[test]
fn a_row_without_entries_is_not_live() {
    let mut db = Db::new("empty");
    let row_id = db.add_row(vec![]);
    assert_eq!(row_id, RowId(1));
    assert!(!db.has_row(row_id));
    assert!(db.find_all_row_ids().is_empty());
    assert!(db.snapshot().is_empty());
    assert_eq!(db.add_string("word", "dos"), RowId(2));
}

#[test]
fn an_entry_added_to_a_new_row_issues_its_identifier() {
    let mut db = Db::new("jump");
    db.add_entry(RowId(7), Entry::new_string("word", "siete"));
    assert!(db.has_row(RowId(7)));
    assert_eq!(db.last_row_id(), RowId(7));
    assert_eq!(db.add_string("word", "ocho"), RowId(8));
    db.add_row_id_entry(RowId(3), Entry::new_string("word", "tres"));
    assert_eq!(db.last_row_id(), RowId(8));
    assert_eq!(
        sorted(db.find_row_ids_by_name("word")),
        vec![RowId(3), RowId(7), RowId(8)]
    );
}

#[test]
fn add_entry_does_not_look_for_duplicates() {
    let mut db = Db::new("dup");
    let row_id = db.add_string("translation", "car");
    db.add_entry(row_id, Entry::new_string("translation", "car"));
    db.add_entry(row_id, Entry::new_string("translation", "automobile"));
    assert_eq!(
        db.debug_rows(&[row_id]),
        vec![vec![
            Entry::new_string("translation", "car"),
            Entry::new_string("translation", "car"),
            Entry::new_string("translation", "automobile"),
        ]]
    );
    assert_eq!(db.find_row_ids_by_name("translation"), vec![row_id]);
    assert_eq!(
        db.find_row_ids_by_value("translation", &Db::db_string("car")),
        vec![row_id]
    );
}

#[test]
fn the_indexes_follow_the_rows() {
    let mut db = words();
    db.add_row_id_entry(RowId(1), Entry::new_i32("count", 4));
    db.add_or_update_entry(RowId(2), Entry::new_string("name", "carro"));
    db.remove_by_name(RowId(1), "set");
    db.add_string("name", "carro");
    db.remove_by_row_id(RowId(7));

    let live = sorted(db.find_all_row_ids());
    assert_eq!(live, vec![RowId(1), RowId(2), RowId(3)]);
    let rows = db.debug_rows(&live);
    for name in ["set", "name", "count", "other"] {
        let filed = sorted(db.find_row_ids_by_name(name));
        let mut holding = vec![];
        for (row_id, row) in live.iter().zip(rows.iter()) {
            if Entry::check_by_name(row, name) {
                holding.push(*row_id);
            }
        }
        assert_eq!(filed, holding);
    }
    let entries = [
        Entry::new_string("set", "es-en"),
        Entry::new_string("name", "disfrutar"),
        Entry::new_string("name", "coche"),
        Entry::new_string("name", "carro"),
        Entry::new_i32("count", 4),
        Entry::new_i32("count", 5),
    ];
    for entry in entries.iter() {
        let filed = sorted(db.find_row_ids_by_value(&entry.name, &entry.value));
        let mut holding = vec![];
        for (row_id, row) in live.iter().zip(rows.iter()) {
            if Entry::check_by_value(row, &entry.name, &entry.value) {
                holding.push(*row_id);
            }
        }
        assert_eq!(filed, holding);
    }
    assert_eq!(
        sorted(db.find_row_ids_by_value("name", &Db::db_string("carro"))),
        vec![RowId(2), RowId(3)]
    );
    assert_eq!(db.find_row_ids_by_name("set"), vec![RowId(2)]);
}

#[test]
fn removing_by_name_keeps_the_other_entries() {
    let mut db = Db::new("remove");
    let row_id = db.add_row(vec![
        Entry::new_string("word", "cocina"),
        Entry::new_string("translation", "cuisine"),
        Entry::new_string("note", "f"),
        Entry::new_string("translation", "kitchen"),
    ]);
    db.remove_by_name(row_id, "translation");
    assert_eq!(
        db.debug_rows(&[row_id]),
        vec![vec![
            Entry::new_string("word", "cocina"),
            Entry::new_string("note", "f"),
        ]]
    );
    assert!(db.find_row_ids_by_name("translation").is_empty());
    assert!(db
        .find_row_ids_by_value("translation", &Db::db_string("kitchen"))
        .is_empty());
    assert_eq!(db.find_row_ids_by_name("word"), vec![row_id]);
    db.remove_by_name(row_id, "missing");
    assert_eq!(db.debug_rows(&[row_id])[0].len(), 2);
    db.remove_by_name(RowId(99), "word");
    assert_eq!(db.find_all_row_ids(), vec![row_id]);
}

#[test]
fn a_row_left_without_entries_is_dropped() {
    let mut db = Db::new("drop");
    let row_id = db.add_string("word", "solo");
    let other = db.add_string("word", "otro");
    db.remove_by_name(row_id, "word");
    assert!(!db.has_row(row_id));
    assert_eq!(db.find_all_row_ids(), vec![other]);
    assert_eq!(db.find_row_ids_by_name("word"), vec![other]);
    assert_eq!(db.find_first_row_id_by_value("word", &Db::db_string("solo")), None);
    assert_eq!(db.snapshot().len(), 1);
}

#[test]
fn deleting_an_absent_row_changes_nothing() {
    let mut db = words();
    db.remove_by_row_id(RowId(2));
    let rows = db.debug_rows(&[RowId(1), RowId(2)]);
    let by_name = db.find_row_ids_by_name("set");
    let by_value = db.find_row_ids_by_value("name", &Db::db_string("disfrutar"));
    db.remove_by_row_id(RowId(2));
    db.remove_by_row_id(RowId(40));
    db.delete_rows(&[RowId(2), RowId(40), RowId(2)]);
    assert_eq!(db.debug_rows(&[RowId(1), RowId(2)]), rows);
    assert_eq!(db.find_row_ids_by_name("set"), by_name);
    assert_eq!(
        db.find_row_ids_by_value("name", &Db::db_string("disfrutar")),
        by_value
    );
    assert_eq!(db.find_all_row_ids(), vec![RowId(1)]);
    assert_eq!(db.last_row_id(), RowId(2));
}

#[test]
fn delete_rows_deletes_each_of_them() {
    let mut db = Db::new("test-db");
    let row_1 = db.add_row(vec![
        Entry::new_string("word", "cocina"),
        Entry::new_string("translation", "cuisine"),
        Entry::new_string("translation", "kitchen"),
    ]);
    let row_2 = db.add_row(vec![
        Entry::new_string("word", "coche"),
        Entry::new_string("translation", "car"),
    ]);
    let coche = db.find_first_row_id_by_value("word", &Db::db_string("coche"));
    assert_eq!(coche, Some(row_2));
    db.delete_rows(&[row_1, row_2]);
    let no_coche = db.find_first_row_id_by_value("word", &Db::db_string("coche"));
    assert_eq!(no_coche, None);
    assert!(db.find_all_row_ids().is_empty());
    assert!(db.find_row_ids_by_name("translation").is_empty());
}

#[test]
fn upsert_replaces_every_entry_of_the_name() {
    let mut db = Db::new("upsert");
    let row = db.add_row(vec![Entry::new_i32("x", 1), Entry::new_string("y", "keep")]);
    db.add_or_update_entry(row, Entry::new_i32("x", 2));
    assert_eq!(
        db.entries_from_row_ids(&[row], &["x"]),
        vec![vec![Entry::new_i32("x", 2)]]
    );
    assert!(!db.find_row_ids_by_value("x", &Db::db_i32(1)).contains(&row));
    assert!(db.find_row_ids_by_value("x", &Db::db_i32(2)).contains(&row));
    assert_eq!(
        db.debug_rows(&[row]),
        vec![vec![Entry::new_string("y", "keep"), Entry::new_i32("x", 2)]]
    );

    db.add_entry(row, Entry::new_i32("x", 3));
    db.add_entry(row, Entry::new_i32("x", 2));
    db.add_or_update_entry(row, Entry::new_string("x", "four"));
    assert_eq!(
        db.debug_rows(&[row]),
        vec![vec![
            Entry::new_string("y", "keep"),
            Entry::new_string("x", "four"),
        ]]
    );
    assert!(db.find_row_ids_by_value("x", &Db::db_i32(2)).is_empty());
    assert!(db.find_row_ids_by_value("x", &Db::db_i32(3)).is_empty());
    assert_eq!(db.find_row_ids_by_name("x"), vec![row]);

    db.add_or_update_entry(RowId(9), Entry::new_i32("x", 9));
    assert_eq!(db.debug_rows(&[RowId(9)]), vec![vec![Entry::new_i32("x", 9)]]);
    assert_eq!(db.last_row_id(), RowId(9));
}

#[test]
fn predicates_narrow_the_result() {
    let db = words();
    let one = vec![Predicate::new_equal_string("set", "es-en")];
    assert_eq!(
        db.find_row_ids_by_predicate(&one, None),
        vec![RowId(1), RowId(2)]
    );
    let two = vec![
        Predicate::new_equal_string("set", "es-en"),
        Predicate::new_equal_string("name", "disfrutar"),
    ];
    assert_eq!(db.find_row_ids_by_predicate(&two, None), vec![RowId(1)]);
    let none = vec![
        Predicate::new_equal_string("set", "es-en"),
        Predicate::new_equal_string("name", "disfrutar"),
        Predicate::new_equal_string("name", "coche"),
    ];
    assert!(db.find_row_ids_by_predicate(&none, None).is_empty());
}

#[test]
fn the_first_predicate_may_be_of_any_kind() {
    let db = words();
    let starts = vec![
        Predicate::new_starts_with("name", "co"),
        Predicate::new_equal_string("set", "es-en"),
    ];
    assert_eq!(db.find_row_ids_by_predicate(&starts, None), vec![RowId(2)]);
    let holds = vec![Predicate::new_contains("name", "r")];
    assert_eq!(db.find_row_ids_by_predicate(&holds, None), vec![RowId(1)]);
    let any = vec![Predicate::new_any_string("name")];
    assert_eq!(
        db.find_row_ids_by_predicate(&any, None),
        vec![RowId(1), RowId(2)]
    );
    assert_eq!(
        sorted(db.find_by_predicate(&Predicate::new_any_string("set"))),
        vec![RowId(1), RowId(2)]
    );
    assert_eq!(
        db.find_by_predicate(&Predicate::new_equal_string("name", "coche")),
        vec![RowId(2)]
    );
    assert!(db
        .find_by_predicate(&Predicate::new_equal_string("name", "co"))
        .is_empty());
    assert_eq!(
        db.filter_rows(
            &vec![RowId(2), RowId(5), RowId(1), RowId(2)],
            &Predicate::new_starts_with("name", "co")
        ),
        vec![RowId(2), RowId(2)]
    );
}

#[test]
fn max_results_bounds_the_result() {
    let mut db = words();
    db.add_row(vec![Entry::new_string("set", "es-en")]);
    let all = vec![Predicate::new_equal_string("set", "es-en")];
    assert_eq!(
        db.find_row_ids_by_predicate(&all, Some(15)),
        vec![RowId(1), RowId(2), RowId(3)]
    );
    assert_eq!(
        db.find_row_ids_by_predicate(&all, Some(3)),
        vec![RowId(1), RowId(2), RowId(3)]
    );
    let two = db.find_row_ids_by_predicate(&all, Some(2));
    assert_eq!(two.len(), 2);
    assert!(two[0] < two[1]);
    assert!(two.iter().all(|row_id| db.match_row(*row_id, &all[0])));
    assert!(db.find_row_ids_by_predicate(&all, Some(0)).is_empty());
    assert_eq!(
        db.find_row_ids_by_predicate(&[], None),
        vec![RowId(1), RowId(2), RowId(3)]
    );
    assert_eq!(db.find_row_ids_by_predicate(&[], Some(1)).len(), 1);
}

#[test]
fn entries_come_in_the_order_of_the_names() {
    let mut db = Db::new("order");
    let row = db.add_row(vec![
        Entry::new_string("word", "cocina"),
        Entry::new_string("translation", "cuisine"),
        Entry::new_i32("count", 2),
        Entry::new_string("translation", "kitchen"),
    ]);
    assert_eq!(
        db.entries_from_row_ids(&[row, RowId(50), row], &["translation", "missing", "word"]),
        vec![
            vec![
                Entry::new_string("translation", "cuisine"),
                Entry::new_string("translation", "kitchen"),
                Entry::new_string("word", "cocina"),
            ],
            vec![],
            vec![
                Entry::new_string("translation", "cuisine"),
                Entry::new_string("translation", "kitchen"),
                Entry::new_string("word", "cocina"),
            ],
        ]
    );
    assert_eq!(
        db.entries_from_row_ids(&[row], &["count", "count"]),
        vec![vec![Entry::new_i32("count", 2), Entry::new_i32("count", 2)]]
    );
    assert_eq!(db.entries_from_row_ids(&[row], &[]), vec![Vec::<Entry>::new()]);
    assert!(db.entries_from_row_ids(&[], &["word"]).is_empty());
    assert_eq!(db.debug_rows(&[RowId(50)]), vec![Vec::<Entry>::new()]);
}

#[test]
fn the_first_value_of_a_name_is_found_by_kind() {
    let mut db = Db::new("test-db");
    let _row_id = db.add_row(vec![Entry::new_i32("yoyo", 7), Entry::new_i32("yoyo", 8)]);
    let _row_id = db.add_row(vec![Entry::new_string("lila", "lila")]);
    assert_eq!(db.find_first_i32("yoyo"), Some(7));
    assert_eq!(db.find_first_string("lila"), Some(String::from("lila")));
    assert_eq!(db.find_first_i32("lila"), None);
    assert_eq!(db.find_first_string("yoyo"), None);
    assert_eq!(db.find_first_i32("missing"), None);
    assert_eq!(db.find_first_string("missing"), None);
    assert_eq!(
        db.find_first_entry_by_name(RowId(1), "yoyo"),
        Some(Entry::new_i32("yoyo", 7))
    );
    assert_eq!(db.find_first_entry_by_name(RowId(1), "lila"), None);
}

#[test]
fn one_word_one_row() {
    let mut db = Db::new("scenario");
    let row = db.add_row(vec![
        Entry::new_string("word", "coche"),
        Entry::new_string("value", "car"),
    ]);
    assert_eq!(
        db.find_row_ids_by_value("word", &Db::db_string("coche")),
        vec![row]
    );
    db.remove_by_row_id(row);
    assert_eq!(
        db.find_first_row_id_by_value("word", &Db::db_string("coche")),
        None
    );
}

#[test]
fn delete_entry_all_drops_the_rows_it_empties() {
    let mut db = Db::new("all");
    let only = db.add_string("note", "x");
    let mixed = db.add_row(vec![
        Entry::new_string("word", "coche"),
        Entry::new_string("note", "y"),
        Entry::new_string("note", "z"),
    ]);
    let without = db.add_string("word", "cocina");
    db.delete_entry_all("note");
    assert!(!db.has_row(only));
    assert_eq!(sorted(db.find_all_row_ids()), vec![mixed, without]);
    assert_eq!(
        db.debug_rows(&[mixed, without]),
        vec![
            vec![Entry::new_string("word", "coche")],
            vec![Entry::new_string("word", "cocina")],
        ]
    );
    assert!(db.find_row_ids_by_name("note").is_empty());
    assert!(db.find_row_ids_by_value("note", &Db::db_string("y")).is_empty());
    db.delete_entry_all("missing");
    assert_eq!(sorted(db.find_all_row_ids()), vec![mixed, without]);
}

#[test]
fn the_rows_come_back_as_they_were_handed_out() {
    let mut db = Db::new("round");
    db.add_row(vec![
        Entry::new_string("word", "cocina"),
        Entry::new_string("translation", "cuisine"),
        Entry::new_string("translation", "kitchen"),
    ]);
    db.add_row(vec![Entry::new_i32("count", 3)]);
    db.add_row(vec![
        Entry::new_string("word", "coche"),
        Entry {
            name: String::from("added"),
            value: Db::db_datetime("2013-11-22 12:00:00").unwrap(),
        },
    ]);
    db.remove_by_row_id(RowId(2));
    db.add_entry(RowId(9), Entry::new_string("word", "nueve"));

    let kept = db.snapshot();
    let ids: Vec<RowId> = kept.iter().map(|row| row.row_id).collect();
    assert_eq!(ids, vec![RowId(1), RowId(3), RowId(9)]);

    let again = Db::from_rows("round", &kept);
    assert_eq!(again.get_name(), "round");
    assert_eq!(sorted(again.find_all_row_ids()), ids);
    assert_eq!(again.debug_rows(&ids), db.debug_rows(&ids));
    assert_eq!(again.last_row_id(), RowId(9));
    for name in ["word", "translation", "count", "added"] {
        assert_eq!(
            sorted(again.find_row_ids_by_name(name)),
            sorted(db.find_row_ids_by_name(name))
        );
    }
    assert_eq!(
        again.find_row_ids_by_value("translation", &Db::db_string("kitchen")),
        vec![RowId(1)]
    );
    assert!(again.find_row_ids_by_value("count", &Db::db_i32(3)).is_empty());
    let mut again = again;
    assert_eq!(again.add_string("word", "diez"), RowId(10));
}

#[test]
fn kept_rows_are_read_in_order() {
    let rows = vec![
        Row {
            row_id: RowId(4),
            entries: vec![Entry::new_string("word", "first")],
        },
        Row {
            row_id: RowId(8),
            entries: vec![],
        },
        Row {
            row_id: RowId(4),
            entries: vec![Entry::new_string("word", "second"), Entry::new_i32("n", 1)],
        },
        Row {
            row_id: RowId(2),
            entries: vec![Entry::new_string("word", "third")],
        },
    ];
    let db = Db::from_rows("kept", &rows);
    assert_eq!(sorted(db.find_all_row_ids()), vec![RowId(2), RowId(4)]);
    assert_eq!(
        db.debug_rows(&[RowId(4)]),
        vec![vec![Entry::new_string("word", "second"), Entry::new_i32("n", 1)]]
    );
    assert!(db
        .find_row_ids_by_value("word", &Db::db_string("first"))
        .is_empty());
    assert_eq!(db.last_row_id(), RowId(4));
    let none = Db::from_rows("none", &[]);
    assert!(none.find_all_row_ids().is_empty());
    assert_eq!(none.last_row_id(), RowId(0));
}

#[test]
fn the_last_rows_are_the_live_ones_issued_last() {
    let mut db = Db::new("last");
    for word in ["uno", "dos", "tres", "cuatro", "cinco"] {
        db.add_string("word", word);
    }
    db.remove_by_row_id(RowId(4));
    assert_eq!(db.last_n_rows(3), vec![RowId(3), RowId(5)]);
    assert_eq!(db.last_n_rows(1), vec![RowId(5)]);
    assert!(db.last_n_rows(0).is_empty());
    assert_eq!(
        db.last_n_rows(50),
        vec![RowId(1), RowId(2), RowId(3), RowId(5)]
    );
    assert!(Db::new("none").last_n_rows(3).is_empty());
}
