use movie_search::results::{Index, Scores};

fn index(term: &str, docs: &[&str]) -> Index {
    Index {
        term: term.to_string(),
        documents: docs.iter().map(|d| d.to_string()).collect(),
        document_count: docs.len() as i64,
    }
}

fn ranked_by_score(s: &Scores) -> Vec<(String, u64)> {
    s.scored_documents()
}

fn sorted(mut v: Vec<String>) -> Vec<String> {
    v.sort();
    v
}

#[test]
fn new_scores_are_empty() {
    let s = Scores::new();
    assert!(s.empty());
    assert!(s.scored_documents().is_empty());
}

#[test]
fn update_adds_weight_per_listing() {
    let mut s = Scores::new();
    s.update(index("tom", &["tt1", "tt2", "tt1"]), 15, &"actor".to_string());
    assert!(!s.empty());
    assert_eq!(
        s.scored_documents(),
        vec![("tt1".to_string(), 30), ("tt2".to_string(), 15)]
    );
}

#[test]
fn update_collects_fields_once() {
    let mut s = Scores::new();
    s.update(index("a", &["tt1"]), 15, &"actor".to_string());
    s.update(index("b", &["tt1"]), 17, &"director".to_string());
    s.update(index("c", &["tt1"]), 15, &"actor".to_string());
    assert_eq!(s.scored_documents(), vec![("tt1".to_string(), 47)]);
    let ranked = ranked_by_score(&s);
    let top = s.getTopk(10, ranked);
    assert_eq!(top.len(), 1);
    assert_eq!(top[0].0, "tt1");
    assert_eq!(sorted(top[0].1.clone()), vec!["actor".to_string(), "director".to_string()]);
}

#[test]
fn update_saturates() {
    let mut s = Scores::new();
    s.update(index("a", &["tt1"]), u64::MAX - 1, &"actor".to_string());
    s.update(index("b", &["tt1"]), 5, &"writer".to_string());
    assert_eq!(s.scored_documents(), vec![("tt1".to_string(), u64::MAX)]);
}

#[test]
fn intersect_sums_scores_and_unions_fields() {
    let mut a = Scores::new();
    a.update(index("x", &["tt1", "tt2"]), 10, &"actor".to_string());
    let mut b = Scores::new();
    b.update(index("y", &["tt2", "tt3"]), 20, &"title".to_string());
    a.intersect(b);
    assert_eq!(
        a.scored_documents(),
        vec![
            ("tt1".to_string(), 10),
            ("tt2".to_string(), 30),
            ("tt3".to_string(), 20)
        ]
    );
    let ranked = ranked_by_score(&a);
    let top = a.getTopk(10, ranked);
    assert_eq!(top[0].0, "tt2");
    assert_eq!(sorted(top[0].1.clone()), vec!["actor".to_string(), "title".to_string()]);
    assert_eq!(top[1].0, "tt3");
    assert_eq!(top[2].0, "tt1");
}

#[test]
fn intersect_with_new_changes_nothing() {
    let mut a = Scores::new();
    a.update(index("x", &["tt1", "tt2"]), 10, &"actor".to_string());
    let before = a.scored_documents();
    a.intersect(Scores::new());
    assert_eq!(a.scored_documents(), before);
    let mut e = Scores::new();
    let mut b = Scores::new();
    b.update(index("x", &["tt1", "tt2"]), 10, &"actor".to_string());
    e.intersect(b);
    assert_eq!(e.scored_documents(), before);
}

#[test]
fn intersect_commutes_on_scores() {
    let build = |docs: &[&str], w: u64, f: &str| {
        let mut s = Scores::new();
        s.update(index("t", docs), w, &f.to_string());
        s
    };
    let mut ab = build(&["tt1", "tt2"], 15, "actor");
    ab.intersect(build(&["tt2", "tt3"], 20, "title"));
    let mut ba = build(&["tt2", "tt3"], 20, "title");
    ba.intersect(build(&["tt1", "tt2"], 15, "actor"));
    let mut x = ab.scored_documents();
    let mut y = ba.scored_documents();
    x.sort();
    y.sort();
    assert_eq!(x, y);
}

#[test]
fn top_k_orders_by_key_then_position() {
    let mut s = Scores::new();
    s.update(index("t", &["a", "b", "c", "d"]), 1, &"title".to_string());
    let ranked = vec![
        ("a".to_string(), 5),
        ("b".to_string(), 9),
        ("c".to_string(), 5),
        ("d".to_string(), 7),
    ];
    let top = s.getTopk(3, ranked);
    let ids: Vec<&str> = top.iter().map(|p| p.0.as_str()).collect();
    assert_eq!(ids, vec!["b", "d", "a"]);
}

#[test]
fn top_k_with_fewer_entries_and_zero() {
    let mut s = Scores::new();
    s.update(index("t", &["a", "b"]), 1, &"title".to_string());
    let ranked = s.scored_documents();
    let top = s.getTopk(10, ranked);
    assert_eq!(top.len(), 2);
    let mut s = Scores::new();
    s.update(index("t", &["a", "b"]), 1, &"title".to_string());
    let ranked = s.scored_documents();
    assert!(s.getTopk(0, ranked).is_empty());
}

#[test]
fn top_k_skips_unscored_and_repeated_documents() {
    let mut s = Scores::new();
    s.update(index("t", &["a"]), 1, &"title".to_string());
    let ranked = vec![
        ("zz".to_string(), 100),
        ("a".to_string(), 50),
        ("a".to_string(), 40),
    ];
    let top = s.getTopk(3, ranked);
    assert_eq!(top.len(), 1);
    assert_eq!(top[0].0, "a");
    assert_eq!(top[0].1, vec!["title".to_string()]);
}

#[test]
fn update_equals_merging_the_record_alone() {
    let mut a = Scores::new();
    a.update(index("x", &["tt1", "tt2"]), 15, &"actor".to_string());
    let mut b = Scores::new();
    b.update(index("x", &["tt1", "tt2"]), 15, &"actor".to_string());
    a.update(index("y", &["tt2", "tt3", "tt2"]), 20, &"title".to_string());
    let mut alone = Scores::new();
    alone.update(index("y", &["tt2", "tt3", "tt2"]), 20, &"title".to_string());
    b.intersect(alone);
    assert_eq!(a.scored_documents(), b.scored_documents());
    assert_eq!(
        a.scored_documents(),
        vec![("tt1".to_string(), 15), ("tt2".to_string(), 55), ("tt3".to_string(), 20)]
    );
}
