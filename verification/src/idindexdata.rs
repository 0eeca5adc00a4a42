//! The index from people to the titles they worked on, and the metadata
//! that lists each title's people.

use vstd::prelude::*;
use crate::indexdata::{sources_view, Source};
use crate::offsets::{KeyRule, OffsetTable};
use crate::results::{apply_updates, texts, Batch, Index, Scores};

verus! {

/// One record of a person's index: the person and the titles they are
/// credited on.
pub struct IdIndexList {
    pub nconst: String,
    pub title_count: u64,
    pub title_ids: Vec<String>,
}

/// The people credited on one title, by role.
pub struct MetaDataList {
    pub tconst: String,
    pub actors: Vec<String>,
    pub actresses: Vec<String>,
    pub directors: Vec<String>,
    pub producers: Vec<String>,
    pub writers: Vec<String>,
}

impl IdIndexList {
    /// The record as an index record: the person is the term and the titles
    /// are the documents; the count is converted as `as i64` does.
    pub fn to_index(self) -> (r: Index)
        ensures
            r.term@ == self.nconst@,
            r.documents@ == self.title_ids@,
            r.document_count == self.title_count as i64,
    {
        Index {
            term: self.nconst,
            documents: self.title_ids,
            document_count: self.title_count as i64,
        }
    }
}

impl MetaDataList {
    /// The people of role `i`, in the order of `id_sources`: actors,
    /// actresses, directors, producers, writers.
    pub open spec fn people(&self, i: int) -> Seq<Seq<char>> {
        if i == 0 {
            texts(self.actors@)
        } else if i == 1 {
            texts(self.actresses@)
        } else if i == 2 {
            texts(self.directors@)
        } else if i == 3 {
            texts(self.producers@)
        } else {
            texts(self.writers@)
        }
    }

    /// The people of role `i`.
    fn people_of(&self, i: usize) -> (r: &Vec<String>)
        ensures
            texts(r@) == self.people(i as int),
    {
        if i == 0 {
            &self.actors
        } else if i == 1 {
            &self.actresses
        } else if i == 2 {
            &self.directors
        } else if i == 3 {
            &self.producers
        } else {
            &self.writers
        }
    }
}

/// The sources of the people index: one file per role, each match weighing
/// 10.
pub open spec fn id_sources() -> Seq<(Seq<char>, u64, Seq<char>)> {
    seq![
        ("data/actor_id_to_movies.json"@, 10u64, "actor"@),
        ("data/actress_id_to_movies.json"@, 10u64, "actress"@),
        ("data/director_id_to_movies.json"@, 10u64, "director"@),
        ("data/producer_id_to_movies.json"@, 10u64, "producer"@),
        ("data/writer_id_to_movies.json"@, 10u64, "writer"@),
    ]
}

/// Each source of the people index covers the role its file names: the
/// files are `data/<field>_id_to_movies.json` for the roles actor, actress,
/// director, producer and writer, in that order, and every match weighs 10.
pub proof fn lemma_id_sources_roles()
    ensures
        id_sources().len() == 5,
        id_sources().map_values(|e: (Seq<char>, u64, Seq<char>)| e.2) == seq![
            "actor"@,
            "actress"@,
            "director"@,
            "producer"@,
            "writer"@,
        ],
        forall|i: int|
            0 <= i < 5 ==> (#[trigger] id_sources()[i]).0 == "data/"@ + id_sources()[i].2
                + "_id_to_movies.json"@ && id_sources()[i].1 == 10,
{
    reveal_strlit("data/");
    reveal_strlit("_id_to_movies.json");
    reveal_strlit("actor");
    reveal_strlit("actress");
    reveal_strlit("director");
    reveal_strlit("producer");
    reveal_strlit("writer");
    reveal_strlit("data/actor_id_to_movies.json");
    reveal_strlit("data/actress_id_to_movies.json");
    reveal_strlit("data/director_id_to_movies.json");
    reveal_strlit("data/producer_id_to_movies.json");
    reveal_strlit("data/writer_id_to_movies.json");
    let t = id_sources();
    assert(t.map_values(|e: (Seq<char>, u64, Seq<char>)| e.2) =~= seq![
        "actor"@,
        "actress"@,
        "director"@,
        "producer"@,
        "writer"@,
    ]);
    assert(t[0].0 =~= "data/"@ + t[0].2 + "_id_to_movies.json"@);
    assert(t[1].0 =~= "data/"@ + t[1].2 + "_id_to_movies.json"@);
    assert(t[2].0 =~= "data/"@ + t[2].2 + "_id_to_movies.json"@);
    assert(t[3].0 =~= "data/"@ + t[3].2 + "_id_to_movies.json"@);
    assert(t[4].0 =~= "data/"@ + t[4].2 + "_id_to_movies.json"@);
}

/// The people looked up for a role are those the metadata credits under
/// that role's field: actors for "actor", actresses for "actress",
/// directors for "director", producers for "producer", writers for
/// "writer".
pub proof fn lemma_people_by_role(meta: &MetaDataList)
    ensures
        forall|i: int|
            0 <= i < 5 ==> {
                let f = id_sources()[i].2;
                &&& f == "actor"@ ==> #[trigger] meta.people(i) == texts(meta.actors@)
                &&& f == "actress"@ ==> meta.people(i) == texts(meta.actresses@)
                &&& f == "director"@ ==> meta.people(i) == texts(meta.directors@)
                &&& f == "producer"@ ==> meta.people(i) == texts(meta.producers@)
                &&& f == "writer"@ ==> meta.people(i) == texts(meta.writers@)
            },
{
    reveal_strlit("actor");
    reveal_strlit("actress");
    reveal_strlit("director");
    reveal_strlit("producer");
    reveal_strlit("writer");
    assert("actor"@.len() != "actress"@.len() && "actor"@.len() != "director"@.len());
    assert("actor"@.len() != "producer"@.len() && "actor"@.len() != "writer"@.len());
    assert("actress"@.len() != "director"@.len() && "actress"@.len() != "producer"@.len());
    assert("actress"@[0] != "writer"@[0]);
    assert("director"@[0] != "producer"@[0]);
    assert("director"@.len() != "writer"@.len() && "producer"@.len() != "writer"@.len());
}

/// Builds the list of sources of `id_sources`.
fn make_id_sources() -> (r: Vec<Source>)
    ensures
        sources_view(r@) == id_sources(),
{
    let mut r: Vec<Source> = Vec::new();
    r.push(("data/actor_id_to_movies.json".to_owned(), 10, "actor".to_owned()));
    r.push(("data/actress_id_to_movies.json".to_owned(), 10, "actress".to_owned()));
    r.push(("data/director_id_to_movies.json".to_owned(), 10, "director".to_owned()));
    r.push(("data/producer_id_to_movies.json".to_owned(), 10, "producer".to_owned()));
    r.push(("data/writer_id_to_movies.json".to_owned(), 10, "writer".to_owned()));
    assert(sources_view(r@) =~= id_sources());
    r
}

/// The spans of `people` in `offsets`, or `None` if some person has none.
pub open spec fn spans_of(offsets: Map<Seq<char>, (u64, u64)>, people: Seq<Seq<char>>) -> Option<
    Seq<(u64, u64)>,
> {
    if forall|j: int| 0 <= j < people.len() ==> offsets.contains_key(#[trigger] people[j]) {
        Some(people.map_values(|p: Seq<char>| offsets[p]))
    } else {
        None
    }
}

/// The updates that the records of people make, role by role and, within a
/// role, person by person: each record's titles with the role's weight and
/// field.
pub open spec fn people_batches(
    list: Seq<(Seq<char>, u64, Seq<char>)>,
    records: Seq<Seq<Seq<Seq<char>>>>,
) -> Seq<Batch>
    decreases records.len(),
{
    if records.len() == 0 {
        Seq::empty()
    } else {
        let i = records.len() - 1;
        people_batches(list, records.drop_last()) + records[i].map_values(
            |titles: Seq<Seq<char>>| (titles, list[i].1 as nat, list[i].2),
        )
    }
}

/// The titles of each record, role by role, as values.
pub open spec fn records_view(records: Seq<Vec<IdIndexList>>) -> Seq<Seq<Seq<Seq<char>>>> {
    records.map_values(
        |rs: Vec<IdIndexList>| rs@.map_values(|r: IdIndexList| texts(r.title_ids@)),
    )
}

/// The people index: for each role, where each person's record lies in the
/// role's file, and where each title's metadata lies.
pub struct IdIndex {
    index_list: Vec<Source>,
    index_offsets: Vec<OffsetTable>,
    movie_metadata_offsets: OffsetTable,
}

impl IdIndex {
    /// The sources, as values.
    pub closed spec fn list(&self) -> Seq<(Seq<char>, u64, Seq<char>)> {
        sources_view(self.index_list@)
    }

    /// For each role, the span of each person's record.
    pub closed spec fn offsets(&self) -> Seq<Map<Seq<char>, (u64, u64)>> {
        self.index_offsets@.map_values(|t: OffsetTable| t@)
    }

    /// The span of each title's metadata.
    pub closed spec fn metadata(&self) -> Map<Seq<char>, (u64, u64)> {
        self.movie_metadata_offsets@
    }

    /// The sources are those of `id_sources`, one offset table each.
    pub closed spec fn wf(&self) -> bool {
        &&& self.list() == id_sources()
        &&& self.index_offsets@.len() == id_sources().len()
    }

    /// The sources of the index, in order: data file, weight, field.
    pub fn sources() -> (r: Vec<Source>)
        ensures
            sources_view(r@) == id_sources(),
    {
        make_id_sources()
    }

    /// An empty offset table for this index: keys are taken as they are.
    pub fn offset_table() -> (t: OffsetTable)
        ensures
            t.wf(),
            t@ == Map::<Seq<char>, (u64, u64)>::empty(),
            t.consumed() == 0,
            t.rule() == KeyRule::Exact,
    {
        OffsetTable::new(KeyRule::Exact)
    }

    /// The index over the sources of `sources()`, with `tables[i]` the
    /// offsets of the file of source `i` and `metadata` those of the title
    /// metadata.
    pub fn new(tables: Vec<OffsetTable>, metadata: OffsetTable) -> (r: IdIndex)
        requires
            tables@.len() == id_sources().len(),
        ensures
            r.wf(),
            r.list() == id_sources(),
            r.offsets() == tables@.map_values(|t: OffsetTable| t@),
            r.metadata() == metadata@,
    {
        IdIndex {
            index_list: make_id_sources(),
            index_offsets: tables,
            movie_metadata_offsets: metadata,
        }
    }

    /// The span of the metadata of title `movie_id`, if there is one.
    pub fn locate_metadata(&self, movie_id: &String) -> (r: Option<(u64, u64)>)
        ensures
            r == self.metadata().get(movie_id@),
    {
        self.movie_metadata_offsets.get(movie_id.as_str())
    }

    /// For each role, in order, its data file and the spans of the records of
    /// the people of that role in `meta`; `None` when some person has no
    /// record in the role's file.
    pub fn locate_titles(&self, meta: &MetaDataList) -> (r: Option<Vec<(String, Vec<(u64, u64)>)>>)
        requires
            self.wf(),
        ensures
            r is Some <==> forall|i: int|
                0 <= i < id_sources().len() ==> (#[trigger] spans_of(
                    self.offsets()[i],
                    meta.people(i),
                )) is Some,
            r matches Some(v) ==> v@.len() == id_sources().len() && forall|i: int|
                0 <= i < v@.len() ==> (#[trigger] v@[i]).0@ == id_sources()[i].0 && Some(v@[i].1@)
                    == spans_of(self.offsets()[i], meta.people(i)),
    {
        let mut r: Vec<(String, Vec<(u64, u64)>)> = Vec::new();
        let mut i: usize = 0;
        while i < self.index_list.len()
            invariant
                self.wf(),
                i <= self.index_list.len(),
                r@.len() == i,
                forall|u: int|
                    0 <= u < i ==> (#[trigger] spans_of(self.offsets()[u], meta.people(u))) is Some,
                forall|u: int|
                    0 <= u < i ==> (#[trigger] r@[u]).0@ == id_sources()[u].0 && Some(r@[u].1@)
                        == spans_of(self.offsets()[u], meta.people(u)),
            decreases self.index_list.len() - i,
        {
            let people = meta.people_of(i);
            let table = &self.index_offsets[i];
            assert(self.offsets()[i as int] == table@);
            assert(self.index_list@.len() == self.list().len());
            let mut spans: Vec<(u64, u64)> = Vec::new();
            let mut j: usize = 0;
            while j < people.len()
                invariant
                    self.wf(),
                    i < self.index_list.len(),
                    self.index_list@.len() == self.list().len(),
                    self.offsets()[i as int] == table@,
                    j <= people.len(),
                    texts(people@) == meta.people(i as int),
                    spans@.len() == j,
                    forall|w: int|
                        0 <= w < j ==> table@.contains_key(#[trigger] people@[w]@) && spans@[w]
                            == table@[people@[w]@],
                decreases people.len() - j,
            {
                match table.get(people[j].as_str()) {
                    Some(span) => {
                        spans.push(span);
                    },
                    None => {
                        assert(texts(people@)[j as int] == people@[j as int]@);
                        assert(spans_of(table@, meta.people(i as int)) is None);
                        assert(self.index_list@.len() == self.list().len());
                        assert(spans_of(self.offsets()[i as int], meta.people(i as int)) is None);
                        return None;
                    },
                }
                j = j + 1;
            }
            proof {
                let ps = meta.people(i as int);
                assert forall|w: int| 0 <= w < ps.len() implies table@.contains_key(#[trigger] ps[w]) by {
                    assert(ps[w] == people@[w]@);
                }
                assert(spans@ =~= ps.map_values(|p: Seq<char>| table@[p]));
                assert(self.list()[i as int] == sources_view(self.index_list@)[i as int]);
            }
            r.push((self.index_list[i].0.clone(), spans));
            i = i + 1;
        }
        Some(r)
    }

    /// The scores of a title from the records of its people: `records[i]`
    /// holds, for role `i`, the records of the people of that role in
    /// order; each record adds its titles with the weight and field of the
    /// role. `None` (no metadata for the title) gives no scores.
    pub fn get_matches(&self, records: Option<Vec<Vec<IdIndexList>>>) -> (r: Scores)
        requires
            self.wf(),
            records matches Some(rs) ==> rs@.len() == id_sources().len(),
        ensures
            r.wf(),
            r.parts() == match records {
                Some(rs) => apply_updates(people_batches(id_sources(), records_view(rs@))),
                None => apply_updates(Seq::empty()),
            },
    {
        let mut result = Scores::new();
        assert(result.parts() =~= apply_updates(Seq::empty()));
        let mut records = match records {
            Some(rs) => rs,
            None => {
                return result;
            },
        };
        let ghost rv = records_view(records@);
        let ghost list = id_sources();
        let n = records.len();
        assert(rv.take(0) =~= Seq::<Seq<Seq<Seq<char>>>>::empty());
        assert(records_view(records@) =~= rv.skip(0));
        let mut i: usize = 0;
        while i < n
            invariant
                self.wf(),
                list == self.list(),
                n == list.len(),
                rv.len() == n,
                i <= n,
                records@.len() == n - i,
                records_view(records@) == rv.skip(i as int),
                result.wf(),
                result.parts() == apply_updates(people_batches(list, rv.take(i as int))),
            decreases n - i,
        {
            let ghost before = records@;
            let group = records.remove(0);
            let ghost prefix = people_batches(list, rv.take(i as int));
            proof {
                assert(records_view(before)[0] == rv[i as int]);
                assert forall|j: int| 0 <= j < records@.len() implies records_view(records@)[j]
                    == rv.skip(i + 1)[j] by {
                    assert(records@[j] == before[j + 1]);
                    assert(records_view(before)[j + 1] == rv.skip(i as int)[j + 1]);
                }
                assert(records_view(records@) =~= rv.skip(i + 1));
                assert(rv.take(i + 1).drop_last() =~= rv.take(i as int));
            }
            let ghost titles = rv[i as int];
            let ghost w = list[i as int].1 as nat;
            let ghost f = list[i as int].2;
            let entry = &self.index_list[i];
            assert(entry.1 as nat == w && entry.2@ == f);
            let mut group = group;
            let m = group.len();
            assert(titles =~= group@.map_values(|r: IdIndexList| texts(r.title_ids@)));
            assert(prefix + titles.take(0).map_values(
                |t: Seq<Seq<char>>| (t, w, f),
            ) =~= prefix);
            let mut j: usize = 0;
            while j < m
                invariant
                    result.wf(),
                    j <= m,
                    titles.len() == m,
                    group@.len() == m - j,
                    forall|u: int|
                        0 <= u < group@.len() ==> texts((#[trigger] group@[u]).title_ids@)
                            == titles[j + u],
                    entry.1 as nat == w,
                    entry.2@ == f,
                    result.parts() == apply_updates(
                        prefix + titles.take(j as int).map_values(
                            |t: Seq<Seq<char>>| (t, w, f),
                        ),
                    ),
                decreases m - j,
            {
                let ghost g0 = group@;
                let rec = group.remove(0);
                assert(texts(rec.title_ids@) == titles[j as int]) by {
                    assert(g0[0] == rec);
                }
                assert forall|u: int| 0 <= u < group@.len() implies texts(
                    (#[trigger] group@[u]).title_ids@,
                ) == titles[j + 1 + u] by {
                    assert(group@[u] == g0[u + 1]);
                }
                let ghost done = prefix + titles.take(j as int).map_values(
                    |t: Seq<Seq<char>>| (t, w, f),
                );
                let ghost next = prefix + titles.take(j + 1).map_values(
                    |t: Seq<Seq<char>>| (t, w, f),
                );
                assert(next.drop_last() =~= done);
                assert(next.last() == (titles[j as int], w, f));
                result.update(rec.to_index(), entry.1, &entry.2);
                j = j + 1;
            }
            assert(titles.take(m as int) =~= titles);
            i = i + 1;
        }
        assert(rv.take(n as int) =~= rv);
        result
    }
}

} // verus!
