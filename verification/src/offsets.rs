//! Offset tables: where each record of a line-delimited data file starts
//! and how many bytes it spans, keyed by the record's name.

use vstd::prelude::*;
use vstd::hash_map::StringHashMap;
use crate::text::{first_field, first_field_of, lowercase, to_lower};

verus! {

/// How a table derives the key of a line from the name it is given.
#[derive(PartialEq, Eq, Structural, Clone, Copy, Debug)]
pub enum KeyRule {
    /// The name as given.
    Exact,
    /// The name in lower case.
    Lowercase,
    /// The text before the first tab of the given line.
    FirstField,
}

/// The key under which a table with rule `rule` records a line named `name`.
pub open spec fn key_of(rule: KeyRule, name: Seq<char>) -> Seq<char> {
    match rule {
        KeyRule::Exact => name,
        KeyRule::Lowercase => lowercase(name),
        KeyRule::FirstField => first_field(name),
    }
}

/// Two spans `(offset, length)` share no byte.
pub open spec fn disjoint(a: (u64, u64), b: (u64, u64)) -> bool {
    a.0 + a.1 <= b.0 || b.0 + b.1 <= a.0
}

/// Looking a key up after a line was recorded under it gives that line's
/// span; the spans of other keys stay as they were.
pub proof fn lemma_lookup_after_record(
    t: Map<Seq<char>, (u64, u64)>,
    key: Seq<char>,
    span: (u64, u64),
    other: Seq<char>,
)
    ensures
        t.insert(key, span).get(key) == Some(span),
        other != key ==> t.insert(key, span).get(other) == t.get(other),
{
}

/// Lines as values: each line's name (if it has one) and its length in
/// bytes, line end included.
pub open spec fn lines_view(lines: Seq<(Option<String>, u64)>) -> Seq<(Option<Seq<char>>, u64)> {
    lines.map_values(
        |l: (Option<String>, u64)|
            (
                match l.0 {
                    Some(n) => Some(n@),
                    None => None,
                },
                l.1,
            ),
    )
}

/// How many lines come before the first empty one, which marks the end of
/// the file (all of them, if none is empty).
pub open spec fn lines_read(lines: Seq<(Option<Seq<char>>, u64)>) -> nat
    decreases lines.len(),
{
    if lines.len() == 0 || lines[0].1 == 0 {
        0
    } else {
        1 + lines_read(lines.drop_first())
    }
}

/// The number of bytes in the lines before the end of the file.
pub open spec fn read_len(lines: Seq<(Option<Seq<char>>, u64)>) -> nat
    decreases lines.len(),
{
    if lines.len() == 0 || lines[0].1 == 0 {
        0
    } else {
        lines[0].1 as nat + read_len(lines.drop_first())
    }
}

/// The number of bytes in the first `j` lines: where line `j` starts,
/// counted from the first.
pub open spec fn prefix_len(lines: Seq<(Option<Seq<char>>, u64)>, j: int) -> nat
    decreases j,
{
    if j <= 0 {
        0
    } else {
        prefix_len(lines, j - 1) + lines[j - 1].1 as nat
    }
}

/// The key of line `j`, if it is named.
pub open spec fn line_key(rule: KeyRule, lines: Seq<(Option<Seq<char>>, u64)>, j: int) -> Option<
    Seq<char>,
> {
    match lines[j].0 {
        Some(n) => Some(key_of(rule, n)),
        None => None,
    }
}

/// The spans of a table with rule `rule` and spans `m`, at position `pos`,
/// after it has recorded `lines` up to the end of the file.
pub open spec fn table_after(
    rule: KeyRule,
    m: Map<Seq<char>, (u64, u64)>,
    pos: nat,
    lines: Seq<(Option<Seq<char>>, u64)>,
) -> Map<Seq<char>, (u64, u64)>
    decreases lines.len(),
{
    if lines.len() == 0 || lines[0].1 == 0 {
        m
    } else {
        let next = match lines[0].0 {
            Some(n) => m.insert(key_of(rule, n), (pos as u64, lines[0].1)),
            None => m,
        };
        table_after(rule, next, pos + lines[0].1 as nat, lines.drop_first())
    }
}

/// No line before the end of the file has key `k`.
pub open spec fn has_no_key(rule: KeyRule, lines: Seq<(Option<Seq<char>>, u64)>, k: Seq<char>) -> bool {
    forall|j: int| 0 <= j < lines_read(lines) ==> #[trigger] line_key(rule, lines, j) != Some(k)
}

/// Line `j` is the last line before the end of the file with key `k`.
pub open spec fn is_last_with_key(
    rule: KeyRule,
    lines: Seq<(Option<Seq<char>>, u64)>,
    k: Seq<char>,
    j: int,
) -> bool {
    &&& 0 <= j < lines_read(lines)
    &&& line_key(rule, lines, j) == Some(k)
    &&& forall|i: int| j < i < lines_read(lines) ==> #[trigger] line_key(rule, lines, i) != Some(k)
}

proof fn lemma_lines_read_bound(lines: Seq<(Option<Seq<char>>, u64)>)
    ensures
        lines_read(lines) <= lines.len(),
        forall|j: int| 0 <= j < lines_read(lines) ==> #[trigger] lines[j].1 != 0,
    decreases lines.len(),
{
    if lines.len() > 0 && lines[0].1 != 0 {
        lemma_lines_read_bound(lines.drop_first());
        assert forall|j: int| 0 <= j < lines_read(lines) implies #[trigger] lines[j].1 != 0 by {
            if j > 0 {
                assert(lines[j] == lines.drop_first()[j - 1]);
            }
        }
    }
}

proof fn lemma_prefix_len_shift(lines: Seq<(Option<Seq<char>>, u64)>, j: int)
    requires
        0 <= j < lines.len(),
    ensures
        prefix_len(lines, j + 1) == lines[0].1 + prefix_len(lines.drop_first(), j),
    decreases j,
{
    let rest = lines.drop_first();
    if j == 0 {
        assert(prefix_len(lines, 0) == 0);
        assert(prefix_len(rest, 0) == 0);
    } else {
        lemma_prefix_len_shift(lines, j - 1);
        assert(rest[j - 1] == lines[j]);
        assert(prefix_len(lines, j + 1) == prefix_len(lines, j) + lines[j].1);
        assert(prefix_len(rest, j) == prefix_len(rest, j - 1) + rest[j - 1].1);
    }
}

/// The keys of the lines after the first are those of the rest.
proof fn lemma_line_key_shift(rule: KeyRule, lines: Seq<(Option<Seq<char>>, u64)>)
    requires
        lines.len() > 0,
        lines[0].1 != 0,
    ensures
        lines_read(lines) == 1 + lines_read(lines.drop_first()),
        lines_read(lines.drop_first()) < lines.len(),
        forall|j: int|
            0 <= j < lines_read(lines.drop_first()) ==> #[trigger] line_key(rule, lines.drop_first(), j)
                == line_key(rule, lines, j + 1),
{
    let rest = lines.drop_first();
    lemma_lines_read_bound(rest);
    assert forall|j: int| 0 <= j < lines_read(rest) implies #[trigger] line_key(rule, rest, j)
        == line_key(rule, lines, j + 1) by {
        assert(rest[j] == lines[j + 1]);
    }
}

proof fn lemma_table_after_no_key(
    rule: KeyRule,
    m: Map<Seq<char>, (u64, u64)>,
    pos: nat,
    lines: Seq<(Option<Seq<char>>, u64)>,
    k: Seq<char>,
)
    requires
        has_no_key(rule, lines, k),
    ensures
        table_after(rule, m, pos, lines).get(k) == m.get(k),
    decreases lines.len(),
{
    if lines.len() > 0 && lines[0].1 != 0 {
        let rest = lines.drop_first();
        let next = match lines[0].0 {
            Some(n) => m.insert(key_of(rule, n), (pos as u64, lines[0].1)),
            None => m,
        };
        lemma_line_key_shift(rule, lines);
        assert(line_key(rule, lines, 0) != Some(k));
        assert forall|j: int| 0 <= j < lines_read(rest) implies #[trigger] line_key(rule, rest, j)
            != Some(k) by {
            assert(line_key(rule, lines, j + 1) != Some(k));
        }
        lemma_table_after_no_key(rule, next, pos + lines[0].1 as nat, rest, k);
    }
}

proof fn lemma_table_after_last(
    rule: KeyRule,
    m: Map<Seq<char>, (u64, u64)>,
    pos: nat,
    lines: Seq<(Option<Seq<char>>, u64)>,
    k: Seq<char>,
    j: int,
)
    requires
        is_last_with_key(rule, lines, k, j),
    ensures
        table_after(rule, m, pos, lines).get(k) == Some(
            (((pos + prefix_len(lines, j)) as u64), lines[j].1),
        ),
    decreases lines.len(),
{
    let rest = lines.drop_first();
    assert(lines.len() > 0 && lines[0].1 != 0);
    let next = match lines[0].0 {
        Some(n) => m.insert(key_of(rule, n), (pos as u64, lines[0].1)),
        None => m,
    };
    let p2 = pos + lines[0].1 as nat;
    lemma_line_key_shift(rule, lines);
    if j == 0 {
        assert forall|i: int| 0 <= i < lines_read(rest) implies #[trigger] line_key(rule, rest, i)
            != Some(k) by {
            assert(line_key(rule, lines, i + 1) != Some(k));
        }
        lemma_table_after_no_key(rule, next, p2, rest, k);
        assert(prefix_len(lines, 0) == 0);
    } else {
        lemma_prefix_len_shift(lines, j - 1);
        assert(rest[j - 1] == lines[j]);
        assert(line_key(rule, rest, j - 1) == line_key(rule, lines, j));
        assert forall|i: int| j - 1 < i < lines_read(rest) implies #[trigger] line_key(rule, rest, i)
            != Some(k) by {
            assert(line_key(rule, lines, i + 1) != Some(k));
        }
        lemma_table_after_last(rule, next, p2, rest, k, j - 1);
    }
}

/// After recording the lines of a file, a key maps to the span of the last
/// line (before the end of the file) with that key; a key that no line has
/// keeps its earlier span, if any.
pub proof fn lemma_table_after_last_line(
    rule: KeyRule,
    m: Map<Seq<char>, (u64, u64)>,
    pos: nat,
    lines: Seq<(Option<Seq<char>>, u64)>,
    k: Seq<char>,
)
    ensures
        has_no_key(rule, lines, k) ==> table_after(rule, m, pos, lines).get(k) == m.get(k),
        forall|j: int|
            #[trigger] is_last_with_key(rule, lines, k, j) ==> table_after(rule, m, pos, lines).get(
                k,
            ) == Some((((pos + prefix_len(lines, j)) as u64), lines[j].1)),
{
    if has_no_key(rule, lines, k) {
        lemma_table_after_no_key(rule, m, pos, lines, k);
    }
    assert forall|j: int| #[trigger] is_last_with_key(rule, lines, k, j) implies table_after(
        rule,
        m,
        pos,
        lines,
    ).get(k) == Some((((pos + prefix_len(lines, j)) as u64), lines[j].1)) by {
        lemma_table_after_last(rule, m, pos, lines, k, j);
    }
}

/// A table of record spans, built one line at a time while a file is read
/// from its start.
pub struct OffsetTable {
    rule: KeyRule,
    offsets: StringHashMap<(u64, u64)>,
    consumed: u64,
}

impl View for OffsetTable {
    type V = Map<Seq<char>, (u64, u64)>;

    /// The span `(offset, length)` recorded for each key.
    closed spec fn view(&self) -> Map<Seq<char>, (u64, u64)> {
        self.offsets@
    }
}

impl OffsetTable {
    /// Number of bytes of the file accounted for so far.
    pub closed spec fn consumed(&self) -> u64 {
        self.consumed
    }

    /// The rule by which this table derives keys.
    pub closed spec fn rule(&self) -> KeyRule {
        self.rule
    }

    /// Every recorded span is non-empty and lies within the bytes read so
    /// far, and spans recorded under different keys do not overlap.
    pub open spec fn wf(&self) -> bool {
        &&& forall|k: Seq<char>|
            #[trigger] self@.contains_key(k) ==> self@[k].1 > 0 && self@[k].0 + self@[k].1
                <= self.consumed()
        &&& forall|k1: Seq<char>, k2: Seq<char>|
            #[trigger] self@.contains_key(k1) && #[trigger] self@.contains_key(k2) && k1 != k2
                ==> disjoint(self@[k1], self@[k2])
    }

    /// An empty table, at the start of a file.
    pub fn new(rule: KeyRule) -> (t: OffsetTable)
        ensures
            t.wf(),
            t@ == Map::<Seq<char>, (u64, u64)>::empty(),
            t.consumed() == 0,
            t.rule() == rule,
    {
        OffsetTable { rule, offsets: StringHashMap::new(), consumed: 0 }
    }

    /// Number of bytes of the file accounted for so far.
    pub fn bytes_read(&self) -> (r: u64)
        ensures
            r == self.consumed(),
    {
        self.consumed
    }

    /// Accounts for the next line of the file, `len` bytes long (its line
    /// end included). A line of length 0 marks the end of the file: nothing
    /// changes and `false` is returned. Otherwise the line is recorded under
    /// the key of `name`, if it has one, at the current position (a later
    /// line with the same key replaces the earlier one), the position moves
    /// past it, and `true` is returned.
    pub fn record_line(&mut self, name: Option<String>, len: u64) -> (more: bool)
        requires
            old(self).wf(),
            old(self).consumed() + len <= u64::MAX,
        ensures
            final(self).wf(),
            final(self).rule() == old(self).rule(),
            more == (len != 0),
            len == 0 ==> final(self)@ == old(self)@ && final(self).consumed() == old(self).consumed(),
            len != 0 ==> final(self).consumed() == old(self).consumed() + len,
            len != 0 ==> final(self)@ == match name {
                Some(n) => old(self)@.insert(
                    key_of(old(self).rule(), n@),
                    (old(self).consumed(), len),
                ),
                None => old(self)@,
            },
    {
        if len == 0 {
            return false;
        }
        match name {
            Some(n) => {
                let key = match self.rule {
                    KeyRule::Exact => n,
                    KeyRule::Lowercase => to_lower(n.as_str()),
                    KeyRule::FirstField => first_field_of(n.as_str()),
                };
                self.offsets.insert(key, (self.consumed, len));
            },
            None => {},
        }
        let ghost before = old(self)@;
        let ghost at = old(self).consumed();
        self.consumed = self.consumed + len;
        proof {
            // each entry is the new span, or an earlier one left in place
            assert forall|k: Seq<char>| #[trigger] self@.contains_key(k) implies self@[k] == (
                at,
                len,
            ) || (before.contains_key(k) && self@[k] == before[k]) by {}
            assert forall|k1: Seq<char>, k2: Seq<char>|
                #[trigger] self@.contains_key(k1) && #[trigger] self@.contains_key(k2) && k1
                    != k2 implies disjoint(self@[k1], self@[k2]) by {
                if self@[k1] == (at, len) && !(before.contains_key(k1) && self@[k1] == before[k1]) {
                    assert(before.contains_key(k2) && self@[k2] == before[k2]);
                }
            }
        }
        true
    }

    /// Records `lines` (name and length of each) in order, as `record_line`
    /// does one by one, up to the first line of length 0, which marks the
    /// end of the file.
    pub fn record_lines(&mut self, lines: Vec<(Option<String>, u64)>)
        requires
            old(self).wf(),
            old(self).consumed() + read_len(lines_view(lines@)) <= u64::MAX,
        ensures
            final(self).wf(),
            final(self).rule() == old(self).rule(),
            final(self)@ == table_after(
                old(self).rule(),
                old(self)@,
                old(self).consumed() as nat,
                lines_view(lines@),
            ),
            final(self).consumed() == old(self).consumed() + read_len(lines_view(lines@)),
    {
        let ghost lv = lines_view(lines@);
        let ghost target = table_after(self.rule, self@, self.consumed as nat, lv);
        let ghost total = self.consumed + read_len(lv);
        let n = lines.len();
        let mut i: usize = 0;
        let mut going = true;
        assert(lv.skip(0) =~= lv);
        while going && i < n
            invariant
                self.wf(),
                self.rule() == old(self).rule(),
                n == lines@.len(),
                lv == lines_view(lines@),
                i <= n,
                table_after(self.rule(), self@, self.consumed() as nat, lv.skip(i as int)) == target,
                self.consumed() + read_len(lv.skip(i as int)) == total,
                total <= u64::MAX,
                !going ==> i < n && lv[i as int].1 == 0,
            decreases n - i + (if going { 1int } else { 0 }),
        {
            let ghost rest = lv.skip(i as int);
            assert(rest[0] == lv[i as int]);
            assert(rest.drop_first() =~= lv.skip(i + 1));
            let name = match &lines[i].0 {
                Some(s) => Some(s.clone()),
                None => None,
            };
            let len = lines[i].1;
            if self.record_line(name, len) {
                i = i + 1;
            } else {
                going = false;
            }
        }
        assert(lv.skip(i as int).len() == 0 || lv.skip(i as int)[0].1 == 0);
    }

    /// The span recorded under `key`, if any.
    pub fn get(&self, key: &str) -> (r: Option<(u64, u64)>)
        ensures
            r == self@.get(key@),
    {
        match self.offsets.get(key) {
            Some(span) => Some(*span),
            None => None,
        }
    }
}

} // verus!
