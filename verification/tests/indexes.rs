use movie_search::idindexdata::{IdIndex, IdIndexList, MetaDataList};
use movie_search::indexdata::InvertedIndex;
use movie_search::query::{normalize_query, RESULT_LIMIT};
use movie_search::results::Index;

fn strings(v: &[&str]) -> Vec<String> {
    v.iter().map(|s| s.to_string()).collect()
}

#[test]
fn term_sources_and_weights() {
    let s = InvertedIndex::sources();
    assert_eq!(s.len(), 6);
    assert_eq!(s[0], ("data/actor_to_movies.json".to_string(), 15, "actor".to_string()));
    assert_eq!(s[2].1, 17);
    assert_eq!(s[4].1, 10);
    assert_eq!(s[5], ("data/title.json".to_string(), 20, "title".to_string()));
}

#[test]
fn inverted_index_locates_and_scores() {
    let mut tables = Vec::new();
    for i in 0..6 {
        let mut t = InvertedIndex::offset_table();
        if i == 0 || i == 5 {
            t.record_line(Some("other".to_string()), 4);
            t.record_line(Some("Matrix".to_string()), 9);
        }
        tables.push(t);
    }
    let idx = InvertedIndex::new(tables);
    let loc = idx.locate(&"matrix".to_string());
    assert_eq!(loc.len(), 6);
    assert_eq!(loc[0], Some(("data/actor_to_movies.json".to_string(), 4, 9)));
    assert_eq!(loc[1], None);
    assert_eq!(loc[5], Some(("data/title.json".to_string(), 4, 9)));
    let mut found: Vec<Option<Index>> = (0..6).map(|_| None).collect();
    found[0] = Some(Index { term: "matrix".into(), documents: strings(&["tt1"]), document_count: 1 });
    found[5] = Some(Index { term: "matrix".into(), documents: strings(&["tt1", "tt2"]), document_count: 2 });
    let scores = idx.get_matches(found);
    assert_eq!(scores.scored_documents(), vec![("tt1".to_string(), 35), ("tt2".to_string(), 20)]);
}

#[test]
fn id_list_to_index() {
    let l = IdIndexList { nconst: "nm1".into(), title_count: 2, title_ids: strings(&["tt1", "tt2"]) };
    let ix = l.to_index();
    assert_eq!(ix.term, "nm1");
    assert_eq!(ix.documents, strings(&["tt1", "tt2"]));
    assert_eq!(ix.document_count, 2);
    let big = IdIndexList { nconst: "nm2".into(), title_count: u64::MAX, title_ids: vec![] };
    assert_eq!(big.to_index().document_count, -1);
}

fn meta(actors: &[&str], writers: &[&str]) -> MetaDataList {
    MetaDataList {
        tconst: "tt9".into(),
        actors: strings(actors),
        actresses: vec![],
        directors: vec![],
        producers: vec![],
        writers: strings(writers),
    }
}

fn id_index() -> IdIndex {
    let mut tables = Vec::new();
    for i in 0..5 {
        let mut t = IdIndex::offset_table();
        if i == 0 {
            t.record_line(Some("nm1".into()), 10);
            t.record_line(Some("nm2".into()), 11);
        }
        if i == 4 {
            t.record_line(Some("nm3".into()), 6);
        }
        tables.push(t);
    }
    let mut metadata = IdIndex::offset_table();
    metadata.record_line(Some("tt9".into()), 30);
    IdIndex::new(tables, metadata)
}

#[test]
fn id_index_locates_people() {
    let idx = id_index();
    assert_eq!(idx.locate_metadata(&"tt9".to_string()), Some((0, 30)));
    assert_eq!(idx.locate_metadata(&"tt8".to_string()), None);
    let spans = idx.locate_titles(&meta(&["nm2", "nm1"], &["nm3"])).unwrap();
    assert_eq!(spans.len(), 5);
    assert_eq!(spans[0], ("data/actor_id_to_movies.json".to_string(), vec![(10, 11), (0, 10)]));
    assert_eq!(spans[1].1, vec![]);
    assert_eq!(spans[4].1, vec![(0, 6)]);
    assert!(idx.locate_titles(&meta(&["nm1", "nm7"], &[])).is_none());
}

#[test]
fn id_index_scores_people_records() {
    let idx = id_index();
    let rec = |n: &str, t: &[&str]| IdIndexList { nconst: n.into(), title_count: t.len() as u64, title_ids: strings(t) };
    let records = vec![
        vec![rec("nm1", &["tt1", "tt2"]), rec("nm2", &["tt2"])],
        vec![],
        vec![],
        vec![],
        vec![rec("nm3", &["tt2"])],
    ];
    let s = idx.get_matches(Some(records));
    assert_eq!(s.scored_documents(), vec![("tt1".to_string(), 10), ("tt2".to_string(), 30)]);
    let ranked = s.scored_documents();
    let top = s.getTopk(RESULT_LIMIT, ranked);
    assert_eq!(top[0].0, "tt2");
    let mut fields = top[0].1.clone();
    fields.sort();
    assert_eq!(fields, strings(&["actor", "writer"]));
    assert!(idx.get_matches(None).empty());
}

#[test]
fn query_words_are_lowercased() {
    assert!(normalize_query(&vec![]).is_none());
    assert_eq!(
        normalize_query(&strings(&["Tom", "HANKS", "Ünal"])),
        Some(strings(&["tom", "hanks", "ünal"]))
    );
    assert_eq!(RESULT_LIMIT, 10);
}
