//! The term index over people's names and titles, and the table of movie
//! details.

use vstd::prelude::*;
use crate::offsets::{
    is_last_with_key, lemma_table_after_last_line, prefix_len, table_after, KeyRule, OffsetTable,
};
use crate::results::{apply_updates, texts, Batch, Index, Scores};
use crate::text::{first_field, lemma_first_field_is_first, split_fields, split_tabs};

verus! {

/// An index source: its data file, the weight of a match in it, and the
/// field it covers.
pub type Source = (String, u64, String);

/// A source as values.
pub open spec fn source_view(e: Source) -> (Seq<char>, u64, Seq<char>) {
    (e.0@, e.1, e.2@)
}

/// Sources as values.
pub open spec fn sources_view(v: Seq<Source>) -> Seq<(Seq<char>, u64, Seq<char>)> {
    v.map_values(|e: Source| source_view(e))
}

/// The sources of the term index: files of names and titles, with the weight
/// of a match in each.
pub open spec fn term_sources() -> Seq<(Seq<char>, u64, Seq<char>)> {
    seq![
        ("data/actor_to_movies.json"@, 15u64, "actor"@),
        ("data/actress_to_movies.json"@, 15u64, "actress"@),
        ("data/director_to_movies.json"@, 17u64, "director"@),
        ("data/producer_to_movies.json"@, 15u64, "producer"@),
        ("data/writer_to_movies.json"@, 10u64, "writer"@),
        ("data/title.json"@, 20u64, "title"@),
    ]
}

/// The weight of a match in the source of `field`: directors weigh 17,
/// writers 10, titles 20, other people 15.
pub open spec fn term_weight(field: Seq<char>) -> u64 {
    if field == "director"@ {
        17
    } else if field == "writer"@ {
        10
    } else if field == "title"@ {
        20
    } else {
        15
    }
}

/// Each source of the term index covers the role that its file names: the
/// people files are `data/<field>_to_movies.json` for the roles actor,
/// actress, director, producer and writer, in that order, the last file is
/// `data/title.json` for titles, and each source weighs what its field does.
pub proof fn lemma_term_sources_roles()
    ensures
        term_sources().len() == 6,
        term_sources().map_values(|e: (Seq<char>, u64, Seq<char>)| e.2) == seq![
            "actor"@,
            "actress"@,
            "director"@,
            "producer"@,
            "writer"@,
            "title"@,
        ],
        forall|i: int|
            0 <= i < 5 ==> (#[trigger] term_sources()[i]).0 == "data/"@ + term_sources()[i].2
                + "_to_movies.json"@,
        term_sources()[5].0 == "data/"@ + term_sources()[5].2 + ".json"@,
        forall|i: int| 0 <= i < 6 ==> (#[trigger] term_sources()[i]).1 == term_weight(term_sources()[i].2),
{
    reveal_strlit("data/");
    reveal_strlit("_to_movies.json");
    reveal_strlit(".json");
    reveal_strlit("actor");
    reveal_strlit("actress");
    reveal_strlit("director");
    reveal_strlit("producer");
    reveal_strlit("writer");
    reveal_strlit("title");
    reveal_strlit("data/actor_to_movies.json");
    reveal_strlit("data/actress_to_movies.json");
    reveal_strlit("data/director_to_movies.json");
    reveal_strlit("data/producer_to_movies.json");
    reveal_strlit("data/writer_to_movies.json");
    reveal_strlit("data/title.json");
    let t = term_sources();
    assert(t.map_values(|e: (Seq<char>, u64, Seq<char>)| e.2) =~= seq![
        "actor"@,
        "actress"@,
        "director"@,
        "producer"@,
        "writer"@,
        "title"@,
    ]);
    assert(t[0].0 =~= "data/"@ + t[0].2 + "_to_movies.json"@);
    assert(t[1].0 =~= "data/"@ + t[1].2 + "_to_movies.json"@);
    assert(t[2].0 =~= "data/"@ + t[2].2 + "_to_movies.json"@);
    assert(t[3].0 =~= "data/"@ + t[3].2 + "_to_movies.json"@);
    assert(t[4].0 =~= "data/"@ + t[4].2 + "_to_movies.json"@);
    assert(t[5].0 =~= "data/"@ + t[5].2 + ".json"@);
    assert("actor"@.len() != "director"@.len() && "actor"@.len() != "writer"@.len());
    assert("actor"@[0] != "title"@[0]);
    assert("actor"@ != "director"@ && "actor"@ != "writer"@ && "actor"@ != "title"@);
    assert("actress"@ != "director"@ && "actress"@ != "writer"@ && "actress"@ != "title"@);
    assert("producer"@[0] != "director"@[0]);
    assert("producer"@.len() != "writer"@.len() && "producer"@.len() != "title"@.len());
    assert("producer"@ != "director"@ && "producer"@ != "writer"@ && "producer"@ != "title"@);
    assert("writer"@ != "director"@);
    assert("title"@ != "director"@ && "title"@ != "writer"@);
}

/// For each source, the file and span of the record of `word`, if any.
pub open spec fn located(
    list: Seq<(Seq<char>, u64, Seq<char>)>,
    offsets: Seq<Map<Seq<char>, (u64, u64)>>,
    word: Seq<char>,
) -> Seq<Option<(Seq<char>, u64, u64)>> {
    Seq::new(
        list.len(),
        |i: int|
            match offsets[i].get(word) {
                Some(span) => Some((list[i].0, span.0, span.1)),
                None => None,
            },
    )
}

/// Locations as values.
pub open spec fn locations_view(v: Seq<Option<(String, u64, u64)>>) -> Seq<
    Option<(Seq<char>, u64, u64)>,
> {
    v.map_values(
        |o: Option<(String, u64, u64)>|
            match o {
                Some(l) => Some((l.0@, l.1, l.2)),
                None => None,
            },
    )
}

/// The documents of each record that was found, as values.
pub open spec fn found_view(found: Seq<Option<Index>>) -> Seq<Option<Seq<Seq<char>>>> {
    found.map_values(
        |o: Option<Index>|
            match o {
                Some(ix) => Some(texts(ix.documents@)),
                None => None,
            },
    )
}

/// The updates that the records found for a term make: one per source whose
/// record was found, with that source's weight and field.
pub open spec fn term_batches(
    list: Seq<(Seq<char>, u64, Seq<char>)>,
    found: Seq<Option<Seq<Seq<char>>>>,
) -> Seq<Batch>
    decreases found.len(),
{
    if found.len() == 0 {
        Seq::empty()
    } else {
        let prev = term_batches(list, found.drop_last());
        let i = found.len() - 1;
        match found[i] {
            Some(docs) => prev.push((docs, list[i].1 as nat, list[i].2)),
            None => prev,
        }
    }
}

/// Builds the list of sources of `term_sources`.
fn make_sources() -> (r: Vec<Source>)
    ensures
        sources_view(r@) == term_sources(),
{
    let mut r: Vec<Source> = Vec::new();
    r.push(("data/actor_to_movies.json".to_owned(), 15, "actor".to_owned()));
    r.push(("data/actress_to_movies.json".to_owned(), 15, "actress".to_owned()));
    r.push(("data/director_to_movies.json".to_owned(), 17, "director".to_owned()));
    r.push(("data/producer_to_movies.json".to_owned(), 15, "producer".to_owned()));
    r.push(("data/writer_to_movies.json".to_owned(), 10, "writer".to_owned()));
    r.push(("data/title.json".to_owned(), 20, "title".to_owned()));
    assert(sources_view(r@) =~= term_sources());
    r
}

/// The inverted index of terms: for each source, where the record of each
/// (lower-cased) term lies in the source's file.
pub struct InvertedIndex {
    index_list: Vec<Source>,
    index_offsets: Vec<OffsetTable>,
}

impl InvertedIndex {
    /// The sources, as values.
    pub closed spec fn list(&self) -> Seq<(Seq<char>, u64, Seq<char>)> {
        sources_view(self.index_list@)
    }

    /// For each source, the span of each term's record.
    pub closed spec fn offsets(&self) -> Seq<Map<Seq<char>, (u64, u64)>> {
        self.index_offsets@.map_values(|t: OffsetTable| t@)
    }

    /// One offset table per source.
    pub closed spec fn wf(&self) -> bool {
        self.index_list@.len() == self.index_offsets@.len()
    }

    /// The sources of the index, in order: data file, weight, field.
    pub fn sources() -> (r: Vec<Source>)
        ensures
            sources_view(r@) == term_sources(),
    {
        make_sources()
    }

    /// An empty offset table for a source of this index: terms are keyed in
    /// lower case.
    pub fn offset_table() -> (t: OffsetTable)
        ensures
            t.wf(),
            t@ == Map::<Seq<char>, (u64, u64)>::empty(),
            t.consumed() == 0,
            t.rule() == KeyRule::Lowercase,
    {
        OffsetTable::new(KeyRule::Lowercase)
    }

    /// The index over the sources of `sources()`, with `tables[i]` the
    /// offsets of the file of source `i`.
    pub fn new(tables: Vec<OffsetTable>) -> (r: InvertedIndex)
        requires
            tables@.len() == term_sources().len(),
        ensures
            r.wf(),
            r.list() == term_sources(),
            r.offsets() == tables@.map_values(|t: OffsetTable| t@),
    {
        InvertedIndex { index_list: make_sources(), index_offsets: tables }
    }

    /// For each source, in order, its data file and the span of the record
    /// of `word`, or `None` when the source has no record of it.
    pub fn locate(&self, word: &String) -> (r: Vec<Option<(String, u64, u64)>>)
        requires
            self.wf(),
        ensures
            locations_view(r@) == located(self.list(), self.offsets(), word@),
    {
        let mut r: Vec<Option<(String, u64, u64)>> = Vec::new();
        let mut i: usize = 0;
        while i < self.index_list.len()
            invariant
                self.wf(),
                i <= self.index_list.len(),
                locations_view(r@) =~= located(self.list(), self.offsets(), word@).take(i as int),
            decreases self.index_list.len() - i,
        {
            let found = self.index_offsets[i].get(word.as_str());
            let entry = match found {
                Some(span) => Some((self.index_list[i].0.clone(), span.0, span.1)),
                None => None,
            };
            let ghost prev = r@;
            r.push(entry);
            proof {
                assert(self.offsets()[i as int] == self.index_offsets@[i as int]@);
                assert(self.list()[i as int] == source_view(self.index_list@[i as int]));
                assert(locations_view(r@) =~= locations_view(prev).push(
                    located(self.list(), self.offsets(), word@)[i as int],
                ));
            }
            i = i + 1;
        }
        r
    }

    /// The scores of a term, given for each source, in order, the record of
    /// the term that its file holds (or `None`): each record found adds its
    /// documents with the weight and field of its source.
    pub fn get_matches(&self, found: Vec<Option<Index>>) -> (r: Scores)
        requires
            self.wf(),
            found@.len() == self.list().len(),
        ensures
            r.wf(),
            r.parts() == apply_updates(term_batches(self.list(), found_view(found@))),
    {
        let ghost list = self.list();
        let ghost fv = found_view(found@);
        let mut result = Scores::new();
        let mut found = found;
        let mut i: usize = 0;
        assert(fv.take(0) =~= Seq::<Option<Seq<Seq<char>>>>::empty());
        assert(result.parts() =~= apply_updates(Seq::empty()));
        let n = found.len();
        assert(found_view(found@) =~= fv.skip(0));
        while i < n
            invariant
                self.wf(),
                list == self.list(),
                n == list.len(),
                fv.len() == n,
                i <= n,
                found@.len() == n - i,
                found_view(found@) == fv.skip(i as int),
                result.wf(),
                result.parts() == apply_updates(term_batches(list, fv.take(i as int))),
            decreases n - i,
        {
            let ghost before = found@;
            let record = found.remove(0);
            proof {
                assert(fv.take(i + 1).drop_last() =~= fv.take(i as int));
                assert(found_view(before)[0] == fv[i as int]);
                assert forall|j: int| 0 <= j < found@.len() implies found_view(found@)[j]
                    == fv.skip(i + 1)[j] by {
                    assert(found@[j] == before[j + 1]);
                    assert(found_view(before)[j + 1] == fv.skip(i as int)[j + 1]);
                }
                assert(found_view(found@) =~= fv.skip(i + 1));
            }
            match record {
                Some(index) => {
                    let ghost batches = term_batches(list, fv.take(i as int));
                    let ghost docs = texts(index.documents@);
                    assert(fv[i as int] == Some(docs));
                    let entry = &self.index_list[i];
                    result.update(index, entry.1, &entry.2);
                    assert(batches.push((docs, list[i as int].1 as nat, list[i as int].2)).drop_last()
                        =~= batches);
                },
                None => {},
            }
            i = i + 1;
        }
        assert(fv.take(n as int) =~= fv);
        result
    }
}

/// The details of a movie, as its row of the title table holds them.
pub struct MovieRecord {
    pub titleid: String,
    pub titletype: String,
    pub primarytitle: String,
    pub originaltitle: String,
    pub isadult: String,
    pub startyear: String,
    pub endyear: String,
    pub runtimeminutes: String,
    pub genres: String,
}

impl MovieRecord {
    /// The fields of a record, in column order, with the id as given.
    pub open spec fn columns(&self) -> Seq<Seq<char>> {
        seq![
            self.titleid@,
            self.titletype@,
            self.primarytitle@,
            self.originaltitle@,
            self.isadult@,
            self.startyear@,
            self.endyear@,
            self.runtimeminutes@,
            self.genres@,
        ]
    }

    /// The record of movie `id` from its row `line` of the title table: the
    /// second to ninth tab-separated fields of the row, the last one as it
    /// stands (line end included); `None` when the row has fewer than nine
    /// fields.
    pub fn from_line(id: String, line: &String) -> (r: Option<MovieRecord>)
        ensures
            r is Some <==> split_fields(line@).len() >= 9,
            r matches Some(rec) ==> rec.titleid@ == id@ && forall|j: int|
                1 <= j < 9 ==> #[trigger] rec.columns()[j] == split_fields(line@)[j],
    {
        let parts = split_tabs(line.as_str());
        if parts.len() < 9 {
            return None;
        }
        let ghost p = parts.deep_view();
        assert(p[1] == parts@[1]@ && p[2] == parts@[2]@ && p[3] == parts@[3]@);
        assert(p[4] == parts@[4]@ && p[5] == parts@[5]@ && p[6] == parts@[6]@);
        assert(p[7] == parts@[7]@ && p[8] == parts@[8]@);
        let rec = MovieRecord {
            titleid: id,
            titletype: parts[1].clone(),
            primarytitle: parts[2].clone(),
            originaltitle: parts[3].clone(),
            isadult: parts[4].clone(),
            startyear: parts[5].clone(),
            endyear: parts[6].clone(),
            runtimeminutes: parts[7].clone(),
            genres: parts[8].clone(),
        };
        Some(rec)
    }
}


/// In a title table whose header is `header_len` bytes long, the row
/// recorded for movie `id` is the last row (before the end of the file)
/// whose first column is `id`: its span is where that row starts and its
/// length, and its first field is `id`, so that `MovieRecord::from_line`
/// gives its second to ninth fields.
pub proof fn lemma_row_of_movie(
    header_len: u64,
    rows: Seq<(Option<Seq<char>>, u64)>,
    id: Seq<char>,
    j: int,
)
    requires
        is_last_with_key(KeyRule::FirstField, rows, id, j),
    ensures
        table_after(KeyRule::FirstField, Map::empty(), header_len as nat, rows).get(id) == Some(
            (((header_len + prefix_len(rows, j)) as u64), rows[j].1),
        ),
        rows[j].0 matches Some(row) && first_field(row) == id && split_fields(row)[0] == id,
{
    lemma_table_after_last_line(KeyRule::FirstField, Map::empty(), header_len as nat, rows, id);
    let row = rows[j].0->Some_0;
    lemma_first_field_is_first(row);
}

/// Where each movie's row lies in the title table.
pub struct MovieData {
    details: OffsetTable,
}

impl MovieData {
    /// The span of each movie's row, by movie id.
    pub closed spec fn details(&self) -> Map<Seq<char>, (u64, u64)> {
        self.details@
    }

    /// A table of rows for a title table whose header line is `header_len`
    /// bytes long: the header is accounted for but names no movie, and each
    /// later row is keyed by its first field, the movie id.
    pub fn details_table(header_len: u64) -> (t: OffsetTable)
        ensures
            t.wf(),
            t@ == Map::<Seq<char>, (u64, u64)>::empty(),
            t.consumed() == header_len,
            t.rule() == KeyRule::FirstField,
    {
        let mut t = OffsetTable::new(KeyRule::FirstField);
        t.record_line(None, header_len);
        t
    }

    /// The movie data over the rows recorded in `details`.
    pub fn new(details: OffsetTable) -> (r: MovieData)
        ensures
            r.details() == details@,
    {
        MovieData { details }
    }

    /// The span of the row of movie `id`, if the table has one.
    pub fn locate_details(&self, id: &String) -> (r: Option<(u64, u64)>)
        ensures
            r == self.details().get(id@),
    {
        self.details.get(id.as_str())
    }
}

} // verus!
