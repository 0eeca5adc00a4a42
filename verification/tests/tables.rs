use movie_search::indexdata::{InvertedIndex, MovieData, MovieRecord};
use movie_search::offsets::{KeyRule, OffsetTable};

#[test]
fn records_lines_at_running_offsets() {
    let mut t = OffsetTable::new(KeyRule::Exact);
    assert!(t.record_line(Some("nm1".to_string()), 20));
    assert!(t.record_line(None, 5));
    assert!(t.record_line(Some("nm2".to_string()), 7));
    assert_eq!(t.bytes_read(), 32);
    assert_eq!(t.get("nm1"), Some((0, 20)));
    assert_eq!(t.get("nm2"), Some((25, 7)));
    assert_eq!(t.get("nm3"), None);
}

#[test]
fn empty_line_marks_the_end() {
    let mut t = OffsetTable::new(KeyRule::Exact);
    assert!(t.record_line(Some("a".to_string()), 3));
    assert!(!t.record_line(Some("b".to_string()), 0));
    assert_eq!(t.bytes_read(), 3);
    assert_eq!(t.get("b"), None);
}

#[test]
fn later_line_replaces_earlier_key() {
    let mut t = OffsetTable::new(KeyRule::Exact);
    t.record_line(Some("a".to_string()), 3);
    t.record_line(Some("a".to_string()), 4);
    assert_eq!(t.get("a"), Some((3, 4)));
}

#[test]
fn lowercase_rule_folds_case() {
    let mut t = InvertedIndex::offset_table();
    t.record_line(Some("Tom HANKS".to_string()), 10);
    assert_eq!(t.get("tom hanks"), Some((0, 10)));
    assert_eq!(t.get("Tom HANKS"), None);
}

#[test]
fn first_field_rule_keys_by_id() {
    let mut t = MovieData::details_table(12);
    assert_eq!(t.bytes_read(), 12);
    t.record_line(Some("tt0001\tmovie\tTitle\n".to_string()), 20);
    t.record_line(Some("tt0002\n".to_string()), 7);
    assert_eq!(t.get("tt0001"), Some((12, 20)));
    assert_eq!(t.get("tt0002\n"), Some((32, 7)));
    let data = MovieData::new(t);
    assert_eq!(data.locate_details(&"tt0001".to_string()), Some((12, 20)));
    assert_eq!(data.locate_details(&"tt9".to_string()), None);
}

#[test]
fn movie_record_from_row() {
    let line = "tt1\tmovie\tThe Title\tOriginal\t0\t1999\t\\N\t120\tDrama,Comedy\n".to_string();
    let rec = MovieRecord::from_line("tt1".to_string(), &line).unwrap();
    assert_eq!(rec.titleid, "tt1");
    assert_eq!(rec.titletype, "movie");
    assert_eq!(rec.primarytitle, "The Title");
    assert_eq!(rec.originaltitle, "Original");
    assert_eq!(rec.isadult, "0");
    assert_eq!(rec.startyear, "1999");
    assert_eq!(rec.endyear, "\\N");
    assert_eq!(rec.runtimeminutes, "120");
    assert_eq!(rec.genres, "Drama,Comedy\n");
}

#[test]
fn movie_record_needs_nine_fields() {
    let line = "tt1\tmovie\tThe Title\tOriginal\t0\t1999\t\\N\t120".to_string();
    assert!(MovieRecord::from_line("tt1".to_string(), &line).is_none());
    let extra = "tt1\ta\tb\tc\td\te\tf\tg\th\ti".to_string();
    let rec = MovieRecord::from_line("x".to_string(), &extra).unwrap();
    assert_eq!(rec.titleid, "x");
    assert_eq!(rec.genres, "h");
}

#[test]
fn recorded_lines_keep_last_span_per_key() {
    let mut t = OffsetTable::new(KeyRule::Exact);
    t.record_lines(vec![
        (Some("a".to_string()), 4),
        (None, 3),
        (Some("b".to_string()), 5),
        (Some("a".to_string()), 6),
        (Some("c".to_string()), 0),
        (Some("d".to_string()), 9),
    ]);
    assert_eq!(t.get("a"), Some((12, 6)));
    assert_eq!(t.get("b"), Some((7, 5)));
    assert_eq!(t.get("c"), None);
    assert_eq!(t.get("d"), None);
    assert_eq!(t.bytes_read(), 18);
}

#[test]
fn movie_row_is_last_row_with_its_id() {
    let mut t = MovieData::details_table(10);
    t.record_lines(vec![
        (Some("tt1	movie	Old
".to_string()), 14),
        (Some("tt2	short	Other
".to_string()), 16),
        (Some("tt1	movie	New
".to_string()), 14),
    ]);
    let data = MovieData::new(t);
    assert_eq!(data.locate_details(&"tt1".to_string()), Some((40, 14)));
    assert_eq!(data.locate_details(&"tt2".to_string()), Some((24, 16)));
}
