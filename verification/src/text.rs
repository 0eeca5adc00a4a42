//! Text helpers: case folding of terms and tab-separated fields.

use vstd::prelude::*;
use vstd::string::*;

verus! {

/// What `str::to_lowercase` gives for a string: its Unicode lower-case form.
pub uninterp spec fn lowercase(s: Seq<char>) -> Seq<char>;

/// Lower-cases a string with `str::to_lowercase`. Trusted: the result is
/// taken to be `lowercase` of the argument, that is, a function of the
/// characters of the argument alone; nothing more is claimed of it.
#[verifier::external_body]
pub(crate) fn to_lower(s: &str) -> (r: String)
    ensures
        r@ == lowercase(s@),
{
    s.to_lowercase()
}

/// The field separator of the tab-separated data files.
pub open spec fn is_tab(c: char) -> bool {
    c == '\t'
}

/// Index of the first tab in `s`, or `s.len()` when there is none.
pub open spec fn tab_index(s: Seq<char>) -> int
    decreases s.len(),
{
    if s.len() == 0 {
        0
    } else if is_tab(s[0]) {
        0
    } else {
        1 + tab_index(s.drop_first())
    }
}

/// The tab-separated fields of `s`, as `str::split('\t')` yields them: one
/// more field than there are tabs, empty fields included.
pub open spec fn split_fields(s: Seq<char>) -> Seq<Seq<char>>
    decreases s.len(),
{
    let i = tab_index(s);
    if 0 <= i < s.len() {
        seq![s.take(i)] + split_fields(s.skip(i + 1))
    } else {
        seq![s]
    }
}

/// The text before the first tab (all of `s` if it has none).
pub open spec fn first_field(s: Seq<char>) -> Seq<char> {
    s.take(tab_index(s))
}

/// The first tab index lies in `0..=s.len()`, and no tab stands before it.
pub proof fn lemma_tab_index(s: Seq<char>)
    ensures
        0 <= tab_index(s) <= s.len(),
        tab_index(s) < s.len() ==> is_tab(s[tab_index(s)]),
        forall|j: int| 0 <= j < tab_index(s) ==> !is_tab(#[trigger] s[j]),
    decreases s.len(),
{
    if s.len() > 0 && !is_tab(s[0]) {
        lemma_tab_index(s.drop_first());
        assert forall|j: int| 0 <= j < tab_index(s) implies !is_tab(#[trigger] s[j]) by {
            if j > 0 {
                assert(s[j] == s.drop_first()[j - 1]);
            }
        }
    }
}

/// The first field of a line is the first of its fields.
pub proof fn lemma_first_field_is_first(s: Seq<char>)
    ensures
        split_fields(s).len() >= 1,
        split_fields(s)[0] == first_field(s),
{
    lemma_tab_index(s);
    if tab_index(s) < s.len() {
        assert(split_fields(s)[0] == s.take(tab_index(s)));
    } else {
        assert(s.take(tab_index(s)) =~= s);
    }
}

/// Fields joined back together, a tab between each two.
pub open spec fn join_tabs(fields: Seq<Seq<char>>) -> Seq<char>
    decreases fields.len(),
{
    if fields.len() <= 1 {
        if fields.len() == 0 {
            Seq::empty()
        } else {
            fields[0]
        }
    } else {
        fields[0] + seq!['\t'] + join_tabs(fields.drop_first())
    }
}

/// Only the tab character separates fields.
pub proof fn lemma_tab_is_the_separator(c: char)
    ensures
        is_tab(c) <==> c == '\t',
{
}

/// Splitting at tabs loses nothing and cuts nowhere else: no field holds a
/// tab, and the fields joined with tabs give back the line.
pub proof fn lemma_split_fields_rejoin(s: Seq<char>)
    ensures
        split_fields(s).len() >= 1,
        join_tabs(split_fields(s)) == s,
        forall|j: int| 0 <= j < split_fields(s).len() ==> !(#[trigger] split_fields(s)[j]).contains('\t'),
    decreases s.len(),
{
    lemma_tab_index(s);
    let i = tab_index(s);
    if i < s.len() {
        let rest = s.skip(i + 1);
        lemma_split_fields_rejoin(rest);
        let parts = split_fields(s);
        assert(parts == seq![s.take(i)] + split_fields(rest));
        assert(parts.drop_first() =~= split_fields(rest));
        assert(parts[0] == s.take(i));
        assert(s.take(i) + seq!['\t'] + rest =~= s);
        assert(!s.take(i).contains('\t')) by {
            if s.take(i).contains('\t') {
                let w = choose|w: int| 0 <= w < s.take(i).len() && s.take(i)[w] == '\t';
                assert(s[w] == '\t');
            }
        }
        assert forall|j: int| 0 <= j < parts.len() implies !(#[trigger] parts[j]).contains('\t') by {
            if j > 0 {
                assert(parts[j] == split_fields(rest)[j - 1]);
            }
        }
    } else {
        assert(!s.contains('\t')) by {
            if s.contains('\t') {
                let w = choose|w: int| 0 <= w < s.len() && s[w] == '\t';
                assert(!is_tab(s[w]));
            }
        }
    }
}

/// Position of the first tab at or after `from`, or `n` when there is none.
fn find_tab(s: &str, n: usize, from: usize) -> (r: usize)
    requires
        n == s@.len(),
        from <= n,
    ensures
        r == from + tab_index(s@.skip(from as int)),
        from <= r <= n,
{
    let mut i = from;
    proof {
        lemma_tab_index(s@.skip(from as int));
    }
    while i < n && s.get_char(i) != '\t'
        invariant
            n == s@.len(),
            from <= i <= n,
            tab_index(s@.skip(from as int)) == (i - from) + tab_index(s@.skip(i as int)),
        decreases n - i,
    {
        assert(s@.skip(i as int).drop_first() =~= s@.skip(i + 1));
        i = i + 1;
    }
    i
}

/// The part of `s` from character `from` up to `to`, as a new string.
fn substring(s: &str, from: usize, to: usize) -> (r: String)
    requires
        from <= to <= s@.len(),
    ensures
        r@ == s@.subrange(from as int, to as int),
{
    s.substring_char(from, to).to_owned()
}

/// The text of `line` before its first tab.
pub fn first_field_of(line: &str) -> (r: String)
    ensures
        r@ == first_field(line@),
{
    let n = line.unicode_len();
    let t = find_tab(line, n, 0);
    assert(line@.skip(0) =~= line@);
    substring(line, 0, t)
}

/// Splits `line` at every tab, as `str::split('\t')` does.
pub fn split_tabs(line: &str) -> (r: Vec<String>)
    ensures
        r.deep_view() == split_fields(line@),
{
    let n = line.unicode_len();
    let mut parts: Vec<String> = Vec::new();
    let mut start: usize = 0;
    let mut done = false;
    assert(line@.skip(0) =~= line@);
    while !done
        invariant
            n == line@.len(),
            start <= n,
            !done ==> parts.deep_view() + split_fields(line@.skip(start as int)) == split_fields(
                line@,
            ),
            done ==> parts.deep_view() == split_fields(line@),
        decreases n - start + (if done { 0int } else { 1 }),
    {
        let ghost rest = line@.skip(start as int);
        let t = find_tab(line, n, start);
        proof {
            lemma_tab_index(rest);
        }
        let field = substring(line, start, t);
        assert(field@ =~= rest.take(t - start));
        let ghost before = parts.deep_view();
        parts.push(field);
        assert(parts.deep_view() =~= before.push(field@));
        if t == n {
            assert(rest.take(t - start) =~= rest);
            assert(split_fields(rest) == seq![rest]);
            assert(parts.deep_view() =~= before + split_fields(rest));
            done = true;
        } else {
            assert(rest.skip(t - start + 1) =~= line@.skip(t + 1));
            assert(split_fields(rest) == seq![rest.take(t - start)] + split_fields(
                line@.skip(t + 1),
            ));
            assert(parts.deep_view() + split_fields(line@.skip(t + 1)) =~= before + split_fields(
                rest,
            ));
            start = t + 1;
        }
    }
    parts
}

} // verus!
