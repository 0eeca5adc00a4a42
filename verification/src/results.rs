//! Search results: the documents that matched a query, their accumulated
//! scores and the fields they matched in; merging and ranking them.

use vstd::prelude::*;
use vstd::hash_map::StringHashMap;
use crate::ranking::{positions, top_k_positions, top_selection};

verus! {

broadcast use {vstd::seq_lib::group_seq_properties, vstd::seq::Seq::lemma_push_to_set_commute};

/// One record of an inverted index: a term and the documents that hold it.
pub struct Index {
    pub term: String,
    pub documents: Vec<String>,
    pub document_count: i64,
}

/// Documents with their scores and the fields they matched in.
pub struct Scores {
    term_scores: StringHashMap<u64>,
    documents: StringHashMap<Vec<String>>,
    order: Vec<String>,
}

/// `x` cut off at the largest `u64`: scores add up with saturation.
pub open spec fn sat(x: nat) -> nat {
    if x >= u64::MAX {
        u64::MAX as nat
    } else {
        x
    }
}

/// The score of `d` in `m`, 0 when `d` has none.
pub open spec fn score_of(m: Map<Seq<char>, nat>, d: Seq<char>) -> nat {
    if m.contains_key(d) {
        m[d]
    } else {
        0
    }
}

/// The fields `d` matched in according to `m`, none when `d` is absent.
pub open spec fn fields_of(m: Map<Seq<char>, Set<Seq<char>>>, d: Seq<char>) -> Set<Seq<char>> {
    if m.contains_key(d) {
        m[d]
    } else {
        Set::empty()
    }
}

/// Scores after adding `weight` once for every occurrence of a document in
/// `docs`.
pub open spec fn scores_after_update(
    m: Map<Seq<char>, nat>,
    docs: Seq<Seq<char>>,
    weight: nat,
) -> Map<Seq<char>, nat> {
    Map::new(
        |d: Seq<char>| m.contains_key(d) || docs.contains(d),
        |d: Seq<char>| sat(score_of(m, d) + weight * docs.to_multiset().count(d)),
    )
}

/// Matched fields after every document of `docs` has matched in `field`.
pub open spec fn matches_after_update(
    m: Map<Seq<char>, Set<Seq<char>>>,
    docs: Seq<Seq<char>>,
    field: Seq<char>,
) -> Map<Seq<char>, Set<Seq<char>>> {
    Map::new(
        |d: Seq<char>| m.contains_key(d) || docs.contains(d),
        |d: Seq<char>|
            if docs.contains(d) {
                fields_of(m, d).insert(field)
            } else {
                m[d]
            },
    )
}

/// `order` extended by the documents of `docs` it lacks, each at its first
/// occurrence in `docs`.
pub open spec fn extend_order(order: Seq<Seq<char>>, docs: Seq<Seq<char>>) -> Seq<Seq<char>>
    decreases docs.len(),
{
    if docs.len() == 0 {
        order
    } else {
        let prev = extend_order(order, docs.drop_last());
        if prev.contains(docs.last()) {
            prev
        } else {
            prev.push(docs.last())
        }
    }
}

/// The scores of two result sets combined: each document scores the
/// (saturating) sum of its scores in both.
pub open spec fn merged_scores(a: Map<Seq<char>, nat>, b: Map<Seq<char>, nat>) -> Map<
    Seq<char>,
    nat,
> {
    Map::new(
        |d: Seq<char>| a.contains_key(d) || b.contains_key(d),
        |d: Seq<char>| sat(score_of(a, d) + score_of(b, d)),
    )
}

/// The matched fields of two result sets combined: the union per document.
pub open spec fn merged_matches(
    a: Map<Seq<char>, Set<Seq<char>>>,
    b: Map<Seq<char>, Set<Seq<char>>>,
) -> Map<Seq<char>, Set<Seq<char>>> {
    Map::new(
        |d: Seq<char>| a.contains_key(d) || b.contains_key(d),
        |d: Seq<char>| fields_of(a, d).union(fields_of(b, d)),
    )
}

/// The views of a vector of strings.
pub open spec fn texts(v: Seq<String>) -> Seq<Seq<char>> {
    v.map_values(|s: String| s@)
}

/// The scores, matched fields and ranking order of a result set.
pub type ResultsView = (Map<Seq<char>, nat>, Map<Seq<char>, Set<Seq<char>>>, Seq<Seq<char>>);

/// One `Scores::update`: the documents, the weight and the field.
pub type Batch = (Seq<Seq<char>>, nat, Seq<char>);

/// A result set after `Scores::update` with the documents, weight and field
/// of `batch`.
pub open spec fn updated(v: ResultsView, batch: Batch) -> ResultsView {
    (
        scores_after_update(v.0, batch.0, batch.1),
        matches_after_update(v.1, batch.0, batch.2),
        extend_order(v.2, batch.0),
    )
}

/// The result set that `Scores::new` followed by one update per batch, in
/// order, produces.
pub open spec fn apply_updates(batches: Seq<Batch>) -> ResultsView
    decreases batches.len(),
{
    if batches.len() == 0 {
        (Map::empty(), Map::empty(), Seq::empty())
    } else {
        updated(apply_updates(batches.drop_last()), batches.last())
    }
}

/// The documents of `docs` that have matched fields in `m`, each at its first
/// occurrence, paired with those fields.
pub open spec fn take_matches(m: Map<Seq<char>, Set<Seq<char>>>, docs: Seq<Seq<char>>) -> Seq<
    (Seq<char>, Set<Seq<char>>),
>
    decreases docs.len(),
{
    if docs.len() == 0 {
        Seq::empty()
    } else {
        let prev = take_matches(m, docs.drop_last());
        let d = docs.last();
        if m.contains_key(d) && !docs.drop_last().contains(d) {
            prev.push((d, m[d]))
        } else {
            prev
        }
    }
}

/// The ranking keys of scored entries.
pub open spec fn keys_of(ranked: Seq<(String, u64)>) -> Seq<u64> {
    ranked.map_values(|p: (String, u64)| p.1)
}

/// The documents of the best `k` entries of `ranked`, best first (higher
/// key first; of equal keys, the earlier entry first).
pub open spec fn selected_documents(ranked: Seq<(String, u64)>, k: nat) -> Seq<Seq<char>> {
    top_selection(keys_of(ranked), k).map_values(|i: int| ranked[i].0@)
}

/// Documents paired with their matched fields, as values.
pub open spec fn hits_view(r: Seq<(String, Vec<String>)>) -> Seq<(Seq<char>, Set<Seq<char>>)> {
    r.map_values(|p: (String, Vec<String>)| (p.0@, texts(p.1@).to_set()))
}

/// `fields` with `field` added unless it is there already.
fn add_field(fields: Vec<String>, field: &String) -> (r: Vec<String>)
    requires
        texts(fields@).no_duplicates(),
    ensures
        texts(r@).no_duplicates(),
        texts(r@).to_set() == texts(fields@).to_set().insert(field@),
        r@.len() > 0,
{
    let mut i: usize = 0;
    while i < fields.len()
        invariant
            i <= fields.len(),
            texts(fields@).no_duplicates(),
            forall|j: int| 0 <= j < i ==> (#[trigger] fields@[j])@ != field@,
        decreases fields.len() - i,
    {
        if fields[i] == *field {
            assert(texts(fields@)[i as int] == field@);
            assert(texts(fields@).to_set() =~= texts(fields@).to_set().insert(field@));
            return fields;
        }
        i = i + 1;
    }
    let ghost before = texts(fields@);
    let mut r = fields;
    r.push(field.clone());
    assert(texts(r@) =~= before.push(field@));
    assert(texts(r@).to_set() =~= before.to_set().insert(field@));
    r
}

/// `fields` with every field of `more` added.
fn add_fields(fields: Vec<String>, more: &Vec<String>) -> (r: Vec<String>)
    requires
        texts(fields@).no_duplicates(),
        fields@.len() > 0 || more@.len() > 0,
    ensures
        texts(r@).no_duplicates(),
        texts(r@).to_set() == texts(fields@).to_set().union(texts(more@).to_set()),
        r@.len() > 0,
{
    let ghost start = texts(fields@).to_set();
    let mut r = fields;
    let mut i: usize = 0;
    while i < more.len()
        invariant
            i <= more.len(),
            texts(r@).no_duplicates(),
            texts(r@).to_set() == start.union(texts(more@.take(i as int)).to_set()),
            r@.len() > 0 || more@.len() > 0,
            i > 0 ==> r@.len() > 0,
        decreases more.len() - i,
    {
        r = add_field(r, &more[i]);
        assert(texts(more@.take(i + 1)) =~= texts(more@.take(i as int)).push(more@[i as int]@));
        i = i + 1;
    }
    assert(more@.take(more.len() as int) =~= more@);
    assert(texts(r@).to_set() =~= start.union(texts(more@).to_set()));
    r
}

/// Saturating twice is saturating once.
proof fn lemma_sat_absorbs(x: nat, y: nat)
    ensures
        sat(sat(x) + y) == sat(x + y),
{
}

/// Scoring one more occurrence of `docs[i]`.
proof fn lemma_scores_after_update_step(m: Map<Seq<char>, nat>, docs: Seq<Seq<char>>, i: int, w: nat)
    requires
        0 <= i < docs.len(),
    ensures
        scores_after_update(m, docs.take(i + 1), w) == scores_after_update(m, docs.take(i), w).insert(
            docs[i],
            sat(score_of(scores_after_update(m, docs.take(i), w), docs[i]) + w),
        ),
{
    let a = docs.take(i);
    let b = docs.take(i + 1);
    let d = docs[i];
    assert(b =~= a.push(d));
    let prev = scores_after_update(m, a, w);
    let ca = a.to_multiset().count(d);
    assert(b.to_multiset().count(d) == ca + 1);
    assert(w * (ca + 1) == w * ca + w) by (nonlinear_arith);
    if !prev.contains_key(d) {
        assert(!a.contains(d));
        assert(ca == 0);
        assert(w * 0 == 0) by (nonlinear_arith);
    } else {
        lemma_sat_absorbs(score_of(m, d) + w * ca, w);
    }
    assert forall|x: Seq<char>| x != d implies b.to_multiset().count(x) == a.to_multiset().count(x) by {}
    assert(scores_after_update(m, b, w) =~= prev.insert(d, sat(score_of(prev, d) + w)));
}

/// Matching one more occurrence of `docs[i]` in `field`.
proof fn lemma_matches_after_update_step(
    m: Map<Seq<char>, Set<Seq<char>>>,
    docs: Seq<Seq<char>>,
    i: int,
    field: Seq<char>,
)
    requires
        0 <= i < docs.len(),
    ensures
        matches_after_update(m, docs.take(i + 1), field) == matches_after_update(
            m,
            docs.take(i),
            field,
        ).insert(
            docs[i],
            fields_of(matches_after_update(m, docs.take(i), field), docs[i]).union(set![field]),
        ),
{
    let a = docs.take(i);
    let b = docs.take(i + 1);
    let d = docs[i];
    assert(b =~= a.push(d));
    let prev = matches_after_update(m, a, field);
    assert(fields_of(prev, d).union(set![field]) =~= fields_of(m, d).insert(field));
    assert(matches_after_update(m, b, field) =~= prev.insert(
        d,
        fields_of(prev, d).union(set![field]),
    ));
}

/// Ordering one more document `docs[i]`.
proof fn lemma_extend_order_step(order: Seq<Seq<char>>, docs: Seq<Seq<char>>, i: int)
    requires
        0 <= i < docs.len(),
    ensures
        extend_order(order, docs.take(i + 1)) == if extend_order(order, docs.take(i)).contains(
            docs[i],
        ) {
            extend_order(order, docs.take(i))
        } else {
            extend_order(order, docs.take(i)).push(docs[i])
        },
{
    assert(docs.take(i + 1).drop_last() =~= docs.take(i));
}

/// Absorbing one more document `d` of `b` into the merge.
proof fn lemma_merged_scores_step(
    a: Map<Seq<char>, nat>,
    b: Map<Seq<char>, nat>,
    done: Set<Seq<char>>,
    d: Seq<char>,
)
    requires
        b.contains_key(d),
        !done.contains(d),
    ensures
        merged_scores(a, b.restrict(done.insert(d))) == merged_scores(a, b.restrict(done)).insert(
            d,
            sat(score_of(merged_scores(a, b.restrict(done)), d) + b[d]),
        ),
{
    let prev = merged_scores(a, b.restrict(done));
    if prev.contains_key(d) {
        lemma_sat_absorbs(score_of(a, d), b[d]);
    }
    assert(merged_scores(a, b.restrict(done.insert(d))) =~= prev.insert(
        d,
        sat(score_of(prev, d) + b[d]),
    ));
}

/// Absorbing the fields of one more document `d` of `b` into the merge.
proof fn lemma_merged_matches_step(
    a: Map<Seq<char>, Set<Seq<char>>>,
    b: Map<Seq<char>, Set<Seq<char>>>,
    done: Set<Seq<char>>,
    d: Seq<char>,
)
    requires
        b.contains_key(d),
        !done.contains(d),
    ensures
        merged_matches(a, b.restrict(done.insert(d))) == merged_matches(
            a,
            b.restrict(done),
        ).insert(d, fields_of(merged_matches(a, b.restrict(done)), d).union(b[d])),
{
    let prev = merged_matches(a, b.restrict(done));
    assert(fields_of(prev, d).union(b[d]) =~= fields_of(a, d).union(b[d]));
    assert(merged_matches(a, b.restrict(done.insert(d))) =~= prev.insert(
        d,
        fields_of(prev, d).union(b[d]),
    ));
}

impl Scores {
    /// The score of each document.
    pub closed spec fn scores(&self) -> Map<Seq<char>, nat> {
        self.term_scores@.map_values(|v: u64| v as nat)
    }

    /// The fields each document matched in.
    pub closed spec fn matches(&self) -> Map<Seq<char>, Set<Seq<char>>> {
        self.documents@.map_values(|v: Vec<String>| texts(v@).to_set())
    }

    /// The documents, in the order in which they were first scored.
    pub closed spec fn ranking_order(&self) -> Seq<Seq<char>> {
        texts(self.order@)
    }

    /// Scores, matched fields and ranking order together.
    pub open spec fn parts(&self) -> ResultsView {
        (self.scores(), self.matches(), self.ranking_order())
    }

    /// The same documents are scored and matched; each matched at least one
    /// field, listed once; the ranking order lists each document once.
    pub closed spec fn wf(&self) -> bool {
        &&& self.term_scores@.dom() == self.documents@.dom()
        &&& texts(self.order@).no_duplicates()
        &&& forall|d: Seq<char>| #[trigger]
            texts(self.order@).contains(d) <==> self.documents@.contains_key(d)
        &&& forall|d: Seq<char>| #[trigger]
            self.documents@.contains_key(d) ==> texts(self.documents@[d]@).no_duplicates()
                && self.documents@[d]@.len() > 0
    }

    /// No documents.
    pub fn new() -> (s: Scores)
        ensures
            s.wf(),
            s.scores() == Map::<Seq<char>, nat>::empty(),
            s.matches() == Map::<Seq<char>, Set<Seq<char>>>::empty(),
            s.ranking_order() == Seq::<Seq<char>>::empty(),
    {
        let s = Scores {
            term_scores: StringHashMap::new(),
            documents: StringHashMap::new(),
            order: Vec::new(),
        };
        assert(s.scores() =~= Map::<Seq<char>, nat>::empty());
        assert(s.matches() =~= Map::<Seq<char>, Set<Seq<char>>>::empty());
        assert(s.ranking_order() =~= Seq::<Seq<char>>::empty());
        s
    }

    /// Whether no document has been scored.
    pub fn empty(&self) -> (r: bool)
        requires
            self.wf(),
        ensures
            r == self.scores().is_empty(),
    {
        assert(self.scores().dom() =~= self.term_scores@.dom());
        self.term_scores.is_empty()
    }

    /// Adds the documents of `new_index`, as matches in `field`: each
    /// document gains `weight` (with saturation) for every time it is listed,
    /// and `field` among its matched fields; documents not seen before join
    /// the ranking order in the order in which they are listed.
    pub fn update(&mut self, new_index: Index, weight: u64, field: &String)
        requires
            old(self).wf(),
        ensures
            final(self).wf(),
            final(self).scores() == scores_after_update(
                old(self).scores(),
                texts(new_index.documents@),
                weight as nat,
            ),
            final(self).matches() == matches_after_update(
                old(self).matches(),
                texts(new_index.documents@),
                field@,
            ),
            final(self).ranking_order() == extend_order(
                old(self).ranking_order(),
                texts(new_index.documents@),
            ),
    {
        let docs = new_index.documents;
        let ghost ds = texts(docs@);
        let ghost s0 = self.scores();
        let ghost m0 = self.matches();
        let ghost o0 = self.ranking_order();
        let mut one: Vec<String> = Vec::new();
        one.push(field.clone());
        assert(texts(one@).to_set() =~= set![field@]) by {
            assert(texts(one@) =~= seq![field@]);
        }
        proof {
            assert(ds.take(0) =~= Seq::<Seq<char>>::empty());
            assert(scores_after_update(s0, ds.take(0), weight as nat) =~= s0);
            assert(matches_after_update(m0, ds.take(0), field@) =~= m0);
        }
        let mut i: usize = 0;
        while i < docs.len()
            invariant
                self.wf(),
                i <= docs.len(),
                ds == texts(docs@),
                texts(one@).to_set() == set![field@],
                one@.len() > 0,
                self.scores() == scores_after_update(s0, ds.take(i as int), weight as nat),
                self.matches() == matches_after_update(m0, ds.take(i as int), field@),
                self.ranking_order() == extend_order(o0, ds.take(i as int)),
            decreases docs.len() - i,
        {
            proof {
                lemma_scores_after_update_step(s0, ds, i as int, weight as nat);
                lemma_matches_after_update_step(m0, ds, i as int, field@);
                lemma_extend_order_step(o0, ds, i as int);
            }
            self.credit(&docs[i], weight, &one);
            i = i + 1;
        }
        assert(ds.take(docs.len() as int) =~= ds);
    }

    /// Combines `new_scores` into these results: a document's score becomes
    /// the (saturating) sum of its scores in both, and its matched fields the
    /// union of both; documents new to these results join the ranking order
    /// in the order they have in `new_scores`.
    pub fn intersect(&mut self, new_scores: Scores)
        requires
            old(self).wf(),
            new_scores.wf(),
        ensures
            final(self).wf(),
            final(self).scores() == merged_scores(old(self).scores(), new_scores.scores()),
            final(self).matches() == merged_matches(old(self).matches(), new_scores.matches()),
            final(self).ranking_order() == extend_order(
                old(self).ranking_order(),
                new_scores.ranking_order(),
            ),
    {
        let ghost s0 = self.scores();
        let ghost m0 = self.matches();
        let ghost o0 = self.ranking_order();
        let ghost bs = new_scores.scores();
        let ghost bm = new_scores.matches();
        let ghost bo = new_scores.ranking_order();
        proof {
            assert(bo.take(0).to_set() =~= Set::<Seq<char>>::empty());
            assert(merged_scores(s0, bs.restrict(Set::empty())) =~= s0);
            assert forall|d: Seq<char>| m0.contains_key(d) implies #[trigger] m0[d].union(
                Set::empty(),
            ) == m0[d] by {
                assert(m0[d].union(Set::empty()) =~= m0[d]);
            }
            assert(merged_matches(m0, bm.restrict(Set::empty())) =~= m0);
            assert(bo.take(0) =~= Seq::<Seq<char>>::empty());
        }
        let mut j: usize = 0;
        while j < new_scores.order.len()
            invariant
                self.wf(),
                new_scores.wf(),
                bs == new_scores.scores(),
                bm == new_scores.matches(),
                bo == new_scores.ranking_order(),
                j <= bo.len(),
                self.scores() == merged_scores(s0, bs.restrict(bo.take(j as int).to_set())),
                self.matches() == merged_matches(m0, bm.restrict(bo.take(j as int).to_set())),
                self.ranking_order() == extend_order(o0, bo.take(j as int)),
            decreases bo.len() - j,
        {
            let doc = &new_scores.order[j];
            let ghost d = doc@;
            let ghost done = bo.take(j as int).to_set();
            proof {
                assert(bo[j as int] == d);
                assert(bo.contains(d));
                assert(new_scores.documents@.contains_key(d));
                assert(!done.contains(d)) by {
                    if done.contains(d) {
                        let w = choose|w: int| 0 <= w < j && bo[w] == d;
                        assert(bo[w] == bo[j as int]);
                    }
                }
                assert(bo.take(j + 1).to_set() =~= done.insert(d)) by {
                    assert(bo.take(j + 1) =~= bo.take(j as int).push(d));
                }
                lemma_merged_scores_step(s0, bs, done, d);
                lemma_merged_matches_step(m0, bm, done, d);
                lemma_extend_order_step(o0, bo, j as int);
            }
            match new_scores.term_scores.get(doc.as_str()) {
                Some(points) => match new_scores.documents.get(doc.as_str()) {
                    Some(fields) => {
                        assert(bs[d] == *points as nat);
                        assert(bm[d] == texts(fields@).to_set());
                        self.credit(doc, *points, fields);
                    },
                    None => {},
                },
                None => {},
            }
            j = j + 1;
        }
        proof {
            assert(bo.take(bo.len() as int) =~= bo);
            assert(bo.to_set() =~= bs.dom());
            assert(bs.restrict(bo.to_set()) =~= bs);
            assert(bo.to_set() =~= bm.dom());
            assert(bm.restrict(bo.to_set()) =~= bm);
        }
    }

    /// Each document with its score, in ranking order.
    pub fn scored_documents(&self) -> (r: Vec<(String, u64)>)
        requires
            self.wf(),
        ensures
            r@.len() == self.ranking_order().len(),
            forall|i: int|
                0 <= i < r@.len() ==> (#[trigger] r@[i]).0@ == self.ranking_order()[i] && r@[i].1
                    as nat == self.scores()[self.ranking_order()[i]],
    {
        let mut r: Vec<(String, u64)> = Vec::new();
        let mut i: usize = 0;
        while i < self.order.len()
            invariant
                self.wf(),
                i <= self.order.len(),
                r@.len() == i,
                forall|j: int|
                    0 <= j < i ==> (#[trigger] r@[j]).0@ == self.ranking_order()[j] && r@[j].1
                        as nat == self.scores()[self.ranking_order()[j]],
            decreases self.order.len() - i,
        {
            let doc = &self.order[i];
            proof {
                assert(texts(self.order@)[i as int] == doc@);
                assert(texts(self.order@).contains(doc@));
            }
            match self.term_scores.get(doc.as_str()) {
                Some(score) => {
                    r.push((doc.clone(), *score));
                },
                None => {
                    assert(false);
                },
            }
            i = i + 1;
        }
        r
    }

    /// The best `k` of the `ranked` entries (document, ranking key), best
    /// first: higher keys first, and of equal keys the earlier entry; each
    /// document that has matched fields is returned once, at its first
    /// selected entry, with those fields.
    #[allow(non_snake_case)]
    pub fn getTopk(self, k: usize, ranked: Vec<(String, u64)>) -> (r: Vec<(String, Vec<String>)>)
        requires
            self.wf(),
        ensures
            hits_view(r@) == take_matches(self.matches(), selected_documents(ranked@, k as nat)),
            forall|i: int| 0 <= i < r@.len() ==> texts((#[trigger] r@[i]).1@).no_duplicates(),
            r@.len() <= k,
    {
        let ghost m = self.matches();
        let ghost all = self.documents@;
        let mut keys: Vec<u64> = Vec::new();
        let mut i: usize = 0;
        while i < ranked.len()
            invariant
                i <= ranked.len(),
                keys@ =~= keys_of(ranked@.take(i as int)),
            decreases ranked.len() - i,
        {
            keys.push(ranked[i].1);
            i = i + 1;
        }
        assert(ranked@.take(ranked.len() as int) =~= ranked@);
        let sel = top_k_positions(&keys, k);
        assert(keys@.len() == ranked@.len());
        assert forall|u: int| 0 <= u < sel.len() implies #[trigger] sel@[u] < ranked.len() by {
            assert(positions(sel@)[u] == sel@[u] as int);
        }
        let ghost docs = selected_documents(ranked@, k as nat);
        assert(docs =~= positions(sel@).map_values(|i: int| ranked@[i].0@));
        let mut documents = self.documents;
        let mut out: Vec<(String, Vec<String>)> = Vec::new();
        assert(docs.take(0) =~= Seq::<Seq<char>>::empty());
        assert(all.remove_keys(docs.take(0).to_set()) =~= all);
        let mut t: usize = 0;
        while t < sel.len()
            invariant
                t <= sel.len(),
                docs.len() == sel.len(),
                forall|u: int| 0 <= u < sel.len() ==> #[trigger] sel@[u] < ranked.len(),
                forall|u: int| 0 <= u < sel.len() ==> docs[u] == (#[trigger] ranked@[sel@[u] as int]).0@,
                m == all.map_values(|v: Vec<String>| texts(v@).to_set()),
                forall|d: Seq<char>| #[trigger]
                    all.contains_key(d) ==> texts(all[d]@).no_duplicates(),
                documents@ == all.remove_keys(docs.take(t as int).to_set()),
                hits_view(out@) == take_matches(m, docs.take(t as int)),
                forall|u: int| 0 <= u < out@.len() ==> texts((#[trigger] out@[u]).1@).no_duplicates(),
            decreases sel.len() - t,
        {
            let doc = &ranked[sel[t]].0;
            let ghost d = doc@;
            proof {
                assert(docs[t as int] == d);
                assert(docs.take(t + 1).drop_last() =~= docs.take(t as int));
                assert(docs.take(t + 1).to_set() =~= docs.take(t as int).to_set().insert(d)) by {
                    assert(docs.take(t + 1) =~= docs.take(t as int).push(d));
                }
            }
            let ghost out_before = out@;
            match documents.get(doc.as_str()) {
                Some(fields) => {
                    let copy = fields.clone();
                    assert(texts(copy@) =~= texts(fields@)) by {
                        assert forall|j: int| 0 <= j < copy@.len() implies copy@[j]
                            == fields@[j] by {
                            assert(cloned::<String>(fields@[j], copy@[j]));
                        }
                    }
                    documents.remove(doc.as_str());
                    out.push((doc.clone(), copy));
                    assert(hits_view(out@) =~= hits_view(out_before).push((d, m[d])));
                },
                None => {},
            }
            assert(documents@ =~= all.remove_keys(docs.take(t + 1).to_set()));
            t = t + 1;
        }
        assert(docs.take(sel.len() as int) =~= docs);
        proof {
            lemma_take_matches_len(m, docs);
            assert(hits_view(out@).len() == out@.len());
        }
        out
    }

    /// Credits `doc` with `points` (added with saturation) and with having
    /// matched in each of `fields`.
    fn credit(&mut self, doc: &String, points: u64, fields: &Vec<String>)
        requires
            old(self).wf(),
            fields@.len() > 0,
        ensures
            final(self).wf(),
            final(self).scores() == old(self).scores().insert(
                doc@,
                sat(score_of(old(self).scores(), doc@) + points as nat),
            ),
            final(self).matches() == old(self).matches().insert(
                doc@,
                fields_of(old(self).matches(), doc@).union(texts(fields@).to_set()),
            ),
            final(self).ranking_order() == if old(self).ranking_order().contains(doc@) {
                old(self).ranking_order()
            } else {
                old(self).ranking_order().push(doc@)
            },
    {
        let ghost s0 = self.scores();
        let ghost m0 = self.matches();
        let ghost o0 = self.ranking_order();
        let new_fields = match self.documents.get(doc.as_str()) {
            Some(current) => {
                let copy = current.clone();
                assert(texts(copy@) =~= texts(current@)) by {
                    assert forall|j: int| 0 <= j < copy@.len() implies copy@[j] == current@[j] by {
                        assert(cloned::<String>(current@[j], copy@[j]));
                    }
                }
                add_fields(copy, fields)
            },
            None => {
                let none: Vec<String> = Vec::new();
                assert(texts(none@) =~= Seq::<Seq<char>>::empty());
                assert(texts(none@).to_set() =~= Set::<Seq<char>>::empty());
                add_fields(none, fields)
            },
        };
        let new_score = match self.term_scores.get(doc.as_str()) {
            Some(current) => current.saturating_add(points),
            None => points,
        };
        let is_new = !self.documents.contains_key(doc.as_str());
        self.documents.insert(doc.clone(), new_fields);
        self.term_scores.insert(doc.clone(), new_score);
        if is_new {
            self.order.push(doc.clone());
            assert(texts(self.order@) =~= o0.push(doc@));
        }
        proof {
            assert(self.scores() =~= s0.insert(doc@, sat(score_of(s0, doc@) + points as nat)));
            assert(self.matches() =~= m0.insert(
                doc@,
                fields_of(m0, doc@).union(texts(fields@).to_set()),
            ));
            assert(self.term_scores@.dom() =~= self.documents@.dom());
            if is_new {
                assert(!o0.contains(doc@));
                let o1 = texts(self.order@);
                assert forall|i: int, j: int| 0 <= i < o1.len() && 0 <= j < o1.len() && i != j
                    implies o1[i] != o1[j] by {
                    if i == o0.len() as int {
                        assert(o0.contains(o1[j]));
                    } else if j == o0.len() as int {
                        assert(o0.contains(o1[i]));
                    }
                }
            }
            assert forall|d: Seq<char>| #[trigger]
                self.documents@.contains_key(d) implies texts(self.documents@[d]@).no_duplicates()
                    && self.documents@[d]@.len() > 0 by {
                if d != doc@ {
                    assert(old(self).documents@.contains_key(d));
                }
            }
            assert forall|d: Seq<char>| #[trigger]
                texts(self.order@).contains(d) <==> self.documents@.contains_key(d) by {
                if is_new {
                    assert(texts(self.order@) == o0.push(doc@));
                }
            }
        }
    }
}

/// Combining result sets does not depend on which is combined into which.
pub proof fn lemma_merge_commutes(
    a: Map<Seq<char>, nat>,
    b: Map<Seq<char>, nat>,
    am: Map<Seq<char>, Set<Seq<char>>>,
    bm: Map<Seq<char>, Set<Seq<char>>>,
)
    ensures
        merged_scores(a, b) == merged_scores(b, a),
        merged_matches(am, bm) == merged_matches(bm, am),
{
    assert(merged_scores(a, b) =~= merged_scores(b, a));
    assert forall|d: Seq<char>| #[trigger] merged_matches(am, bm).contains_key(d) implies merged_matches(
        am,
        bm,
    )[d] == merged_matches(bm, am)[d] by {
        assert(fields_of(am, d).union(fields_of(bm, d)) =~= fields_of(bm, d).union(fields_of(am, d)));
    }
    assert(merged_matches(am, bm) =~= merged_matches(bm, am));
}

/// Combining three result sets gives the same whichever two are combined
/// first.
pub proof fn lemma_merge_associates(
    a: Map<Seq<char>, nat>,
    b: Map<Seq<char>, nat>,
    c: Map<Seq<char>, nat>,
    am: Map<Seq<char>, Set<Seq<char>>>,
    bm: Map<Seq<char>, Set<Seq<char>>>,
    cm: Map<Seq<char>, Set<Seq<char>>>,
)
    ensures
        merged_scores(merged_scores(a, b), c) == merged_scores(a, merged_scores(b, c)),
        merged_matches(merged_matches(am, bm), cm) == merged_matches(am, merged_matches(bm, cm)),
{
    let l = merged_scores(merged_scores(a, b), c);
    let r = merged_scores(a, merged_scores(b, c));
    assert forall|d: Seq<char>| #[trigger] l.contains_key(d) implies l[d] == r[d] by {
        let x = score_of(a, d);
        let y = score_of(b, d);
        let z = score_of(c, d);
        lemma_sat_absorbs(x + y, z);
        lemma_sat_absorbs(y + z, x);
        assert(score_of(merged_scores(a, b), d) == sat(x + y));
        assert(score_of(merged_scores(b, c), d) == sat(y + z));
    }
    assert(l =~= r);
    let lm = merged_matches(merged_matches(am, bm), cm);
    let rm = merged_matches(am, merged_matches(bm, cm));
    assert forall|d: Seq<char>| #[trigger] lm.contains_key(d) implies lm[d] == rm[d] by {
        assert(lm[d] =~= rm[d]);
    }
    assert(lm =~= rm);
}

/// Combining with no results changes nothing (scores are `u64` values).
pub proof fn lemma_merge_with_nothing(a: Map<Seq<char>, nat>, am: Map<Seq<char>, Set<Seq<char>>>)
    requires
        forall|d: Seq<char>| #[trigger] a.contains_key(d) ==> a[d] <= u64::MAX,
    ensures
        merged_scores(a, Map::empty()) == a,
        merged_matches(am, Map::empty()) == am,
{
    assert(merged_scores(a, Map::empty()) =~= a);
    assert forall|d: Seq<char>| #[trigger] am.contains_key(d) implies merged_matches(
        am,
        Map::empty(),
    )[d] == am[d] by {
        assert(am[d].union(Set::empty()) =~= am[d]);
    }
    assert(merged_matches(am, Map::empty()) =~= am);
}

/// Adding an index record to results is the same as combining them with the
/// results of that record alone.
pub proof fn lemma_update_is_merge(
    s: Map<Seq<char>, nat>,
    m: Map<Seq<char>, Set<Seq<char>>>,
    docs: Seq<Seq<char>>,
    weight: nat,
    field: Seq<char>,
)
    requires
        forall|d: Seq<char>| #[trigger] s.contains_key(d) ==> s[d] <= u64::MAX,
    ensures
        scores_after_update(s, docs, weight) == merged_scores(
            s,
            scores_after_update(Map::empty(), docs, weight),
        ),
        matches_after_update(m, docs, field) == merged_matches(
            m,
            matches_after_update(Map::empty(), docs, field),
        ),
{
    let l = scores_after_update(s, docs, weight);
    let alone = scores_after_update(Map::empty(), docs, weight);
    let r = merged_scores(s, alone);
    assert forall|d: Seq<char>| #[trigger] l.contains_key(d) implies l[d] == r[d] by {
        let c = docs.to_multiset().count(d);
        lemma_sat_absorbs(weight * c, score_of(s, d));
        if !docs.contains(d) {
            assert(c == 0);
            assert(weight * c == 0) by (nonlinear_arith)
                requires
                    c == 0,
            ;
        }
    }
    assert(l =~= r);
    let lm = matches_after_update(m, docs, field);
    let rm = merged_matches(m, matches_after_update(Map::empty(), docs, field));
    assert forall|d: Seq<char>| #[trigger] lm.contains_key(d) implies lm[d] == rm[d] by {
        assert(lm[d] =~= rm[d]);
    }
    assert(lm =~= rm);
}

/// In well-formed results, the scored documents are exactly the matched
/// ones, each matched in at least one field, each score is a `u64`, and the
/// ranking order lists every document once.
pub proof fn lemma_results_consistent(s: &Scores)
    requires
        s.wf(),
    ensures
        s.scores().dom() == s.matches().dom(),
        forall|d: Seq<char>| #[trigger] s.matches().contains_key(d) ==> s.matches()[d].len() > 0,
        forall|d: Seq<char>| #[trigger] s.scores().contains_key(d) ==> s.scores()[d] <= u64::MAX,
        s.ranking_order().no_duplicates(),
        s.ranking_order().to_set() == s.scores().dom(),
{
    assert(s.scores().dom() =~= s.matches().dom());
    assert forall|d: Seq<char>| #[trigger] s.matches().contains_key(d) implies s.matches()[d].len()
        > 0 by {
        let v = texts(s.documents@[d]@);
        assert(v.len() > 0);
        assert(v.to_set().contains(v[0]));
        v.unique_seq_to_set();
    }
    assert(s.ranking_order().to_set() =~= s.scores().dom());
}

/// Selection never returns more documents than it is given.
pub proof fn lemma_take_matches_len(m: Map<Seq<char>, Set<Seq<char>>>, docs: Seq<Seq<char>>)
    ensures
        take_matches(m, docs).len() <= docs.len(),
    decreases docs.len(),
{
    if docs.len() > 0 {
        lemma_take_matches_len(m, docs.drop_last());
    }
}

/// Selecting among entries that name distinct documents, all of which have
/// matched fields, returns every selected document with its fields.
pub proof fn lemma_take_matches_distinct(m: Map<Seq<char>, Set<Seq<char>>>, docs: Seq<Seq<char>>)
    requires
        docs.no_duplicates(),
        forall|j: int| 0 <= j < docs.len() ==> m.contains_key(#[trigger] docs[j]),
    ensures
        take_matches(m, docs) == docs.map_values(|d: Seq<char>| (d, m[d])),
    decreases docs.len(),
{
    if docs.len() > 0 {
        let prev = docs.drop_last();
        lemma_take_matches_distinct(m, prev);
        assert(!prev.contains(docs.last()));
        assert(docs.map_values(|d: Seq<char>| (d, m[d])) =~= prev.map_values(
            |d: Seq<char>| (d, m[d]),
        ).push((docs.last(), m[docs.last()])));
    }
}

/// Ranking the scored documents themselves (as `scored_documents` lists
/// them, with any keys) with `getTopk` returns `k` of them (all, if there are fewer), each
/// with its matched fields, best first.
pub proof fn lemma_top_k_of_scored(s: &Scores, ranked: Seq<(String, u64)>, k: nat)
    requires
        s.wf(),
        ranked.len() == s.ranking_order().len(),
        forall|i: int| 0 <= i < ranked.len() ==> (#[trigger] ranked[i]).0@ == s.ranking_order()[i],
    ensures
        take_matches(s.matches(), selected_documents(ranked, k)) == selected_documents(
            ranked,
            k,
        ).map_values(|d: Seq<char>| (d, s.matches()[d])),
        selected_documents(ranked, k).len() == crate::ranking::min_nat(k, ranked.len()),
{
    let keys = keys_of(ranked);
    crate::ranking::lemma_top_selection_exists(keys, k);
    let sel = top_selection(keys, k);
    let docs = selected_documents(ranked, k);
    lemma_results_consistent(s);
    assert forall|j: int| 0 <= j < docs.len() implies s.matches().contains_key(#[trigger] docs[j]) by {
        assert(docs[j] == s.ranking_order()[sel[j]]);
        assert(s.ranking_order().to_set().contains(docs[j]));
    }
    assert forall|a: int, b: int| 0 <= a < docs.len() && 0 <= b < docs.len() && a != b implies docs[a]
        != docs[b] by {
        assert(sel[a] != sel[b]) by {
            if a < b {
                assert(crate::ranking::ranks_ahead(keys, sel[a], sel[b]));
            } else {
                assert(crate::ranking::ranks_ahead(keys, sel[b], sel[a]));
            }
        }
        assert(docs[a] == s.ranking_order()[sel[a]]);
        assert(docs[b] == s.ranking_order()[sel[b]]);
    }
    lemma_take_matches_distinct(s.matches(), docs);
}

/// Ranking goes by the keys as given: the key of each entry is its second
/// component, the selected entries come best first by that key, and every
/// entry left out has a key no higher than any selected one.
pub proof fn lemma_ranking_follows_keys(ranked: Seq<(String, u64)>, k: nat)
    ensures
        keys_of(ranked).len() == ranked.len(),
        forall|i: int| 0 <= i < ranked.len() ==> #[trigger] keys_of(ranked)[i] == ranked[i].1,
        ({
            let sel = top_selection(keys_of(ranked), k);
            &&& sel.len() == crate::ranking::min_nat(k, ranked.len())
            &&& forall|t: int|
                0 <= t < sel.len() ==> 0 <= #[trigger] sel[t] < ranked.len()
                    && selected_documents(ranked, k)[t] == ranked[sel[t]].0@
            &&& forall|t: int, u: int|
                0 <= t < u < sel.len() ==> ranked[#[trigger] sel[t]].1 >= ranked[#[trigger] sel[u]].1
            &&& forall|t: int, j: int|
                0 <= t < sel.len() && 0 <= j < ranked.len() && !sel.contains(j) ==> ranked[#[trigger] sel[t]].1
                    >= #[trigger] ranked[j].1
        }),
{
    let keys = keys_of(ranked);
    crate::ranking::lemma_top_selection_exists(keys, k);
    let sel = top_selection(keys, k);
    assert forall|t: int, u: int| 0 <= t < u < sel.len() implies ranked[#[trigger] sel[t]].1
        >= ranked[#[trigger] sel[u]].1 by {
        assert(crate::ranking::ranks_ahead(keys, sel[t], sel[u]));
    }
    assert forall|t: int, j: int|
        0 <= t < sel.len() && 0 <= j < ranked.len() && !sel.contains(j) implies ranked[#[trigger] sel[t]].1
        >= #[trigger] ranked[j].1 by {
        assert(crate::ranking::ranks_ahead(keys, sel[t], j));
    }
}

} // verus!
