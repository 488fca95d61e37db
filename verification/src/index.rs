//! The record indexer: a mapping from the value of a designated key column to
//! the full ordered record, built line by line. A later record with the same
//! key replaces the earlier one.

use vstd::prelude::*;

use crate::strutil::{split_chars, split_str, trim, trim_spec};
use crate::RecordError;

verus! {

/// The mathematical image of one indexed record: its key and its fields.
#[verifier::ext_equal]
pub ghost struct EntryView {
    pub key: Seq<char>,
    pub fields: Seq<Seq<char>>,
}

/// One indexed record: the value of its key column, and all its fields.
#[derive(Debug, PartialEq)]
pub struct IndexEntry {
    pub key: String,
    pub fields: Vec<String>,
}

impl View for IndexEntry {
    type V = EntryView;

    open spec fn view(&self) -> EntryView {
        EntryView { key: self.key@, fields: self.fields.deep_view() }
    }
}

impl DeepView for IndexEntry {
    type V = EntryView;

    open spec fn deep_view(&self) -> EntryView {
        self@
    }
}

/// The entries folded into a key-to-record map; a later entry with the same
/// key wins.
pub open spec fn map_of_entries(es: Seq<EntryView>) -> Map<Seq<char>, Seq<Seq<char>>>
    decreases es.len(),
{
    if es.len() == 0 {
        Map::empty()
    } else {
        map_of_entries(es.drop_last()).insert(es.last().key, es.last().fields)
    }
}

pub open spec fn distinct_keys(es: Seq<EntryView>) -> bool {
    forall|i: int, j: int| 0 <= i < j < es.len() ==> es[i].key != es[j].key
}

pub open spec fn has_key(es: Seq<EntryView>, k: Seq<char>) -> bool {
    exists|i: int| 0 <= i < es.len() && (#[trigger] es[i]).key == k
}

pub open spec fn key_index(es: Seq<EntryView>, k: Seq<char>) -> int {
    choose|i: int| 0 <= i < es.len() && (#[trigger] es[i]).key == k
}

/// Adding one entry: replace the entry that already holds its key, or append
/// it at the end.
pub open spec fn upsert(es: Seq<EntryView>, e: EntryView) -> Seq<EntryView> {
    if has_key(es, e.key) {
        es.update(key_index(es, e.key), e)
    } else {
        es.push(e)
    }
}

/// A key is in the map exactly when some entry holds it.
pub proof fn lemma_map_dom_key(es: Seq<EntryView>, k: Seq<char>)
    ensures
        map_of_entries(es).dom().contains(k) <==> has_key(es, k),
    decreases es.len(),
{
    if es.len() > 0 {
        lemma_map_dom_key(es.drop_last(), k);
        if es.last().key == k {
            assert(es[es.len() - 1].key == k);
            assert(has_key(es, k));
        } else {
            if map_of_entries(es).dom().contains(k) {
                let i = key_index(es.drop_last(), k);
                assert(es[i].key == k);
                assert(has_key(es, k));
            }
            if has_key(es, k) {
                let i = key_index(es, k);
                assert(i < es.len() - 1);
                assert(es.drop_last()[i] == es[i]);
                assert(has_key(es.drop_last(), k));
            }
        }
    }
}

/// With distinct keys, the map sends each entry's key to that entry's fields.
pub proof fn lemma_map_at(es: Seq<EntryView>, i: int)
    requires
        distinct_keys(es),
        0 <= i < es.len(),
    ensures
        map_of_entries(es).dom().contains(es[i].key),
        map_of_entries(es)[es[i].key] == es[i].fields,
    decreases es.len(),
{
    if i < es.len() - 1 {
        assert(distinct_keys(es.drop_last())) by {
            assert(forall|a: int|
                0 <= a < es.len() - 1 ==> #[trigger] es.drop_last()[a] == es[a]);
        }
        assert(es.drop_last()[i] == es[i]);
        lemma_map_at(es.drop_last(), i);
        assert(es.last().key != es[i].key);
    }
}

proof fn lemma_map_update(es: Seq<EntryView>, i: int, e: EntryView)
    requires
        distinct_keys(es),
        0 <= i < es.len(),
        es[i].key == e.key,
    ensures
        distinct_keys(es.update(i, e)),
        map_of_entries(es.update(i, e)) == map_of_entries(es).insert(e.key, e.fields),
    decreases es.len(),
{
    let u = es.update(i, e);
    assert(distinct_keys(u)) by {
        assert(forall|a: int| 0 <= a < es.len() && a != i ==> #[trigger] u[a] == es[a]);
        assert(u[i] == e);
    }
    if i == es.len() - 1 {
        assert(u.drop_last() =~= es.drop_last());
        assert(u.last() == e);
        assert(map_of_entries(es.drop_last()).insert(es.last().key, es.last().fields).insert(
            e.key,
            e.fields,
        ) =~= map_of_entries(es.drop_last()).insert(e.key, e.fields));
    } else {
        assert(distinct_keys(es.drop_last())) by {
            assert(forall|a: int|
                0 <= a < es.len() - 1 ==> #[trigger] es.drop_last()[a] == es[a]);
        }
        assert(u.drop_last() =~= es.drop_last().update(i, e));
        assert(es.drop_last()[i] == es[i]);
        lemma_map_update(es.drop_last(), i, e);
        assert(u.last() == es.last());
        assert(es.last().key != e.key);
        assert(map_of_entries(es.drop_last()).insert(e.key, e.fields).insert(
            es.last().key,
            es.last().fields,
        ) =~= map_of_entries(es.drop_last()).insert(es.last().key, es.last().fields).insert(
            e.key,
            e.fields,
        ));
    }
}

/// A key-to-record mapping with each key held by exactly one entry.
#[derive(Debug, PartialEq)]
pub struct RecordIndex {
    pub entries: Vec<IndexEntry>,
}

impl View for RecordIndex {
    type V = Seq<EntryView>;

    open spec fn view(&self) -> Seq<EntryView> {
        self.entries.deep_view()
    }
}

impl RecordIndex {
    /// The mapping the entries denote.
    pub open spec fn as_map(&self) -> Map<Seq<char>, Seq<Seq<char>>> {
        map_of_entries(self@)
    }

    /// The set of keys present in the index.
    pub open spec fn key_set(&self) -> Set<Seq<char>> {
        self.as_map().dom()
    }

    /// Keys are unique: the invariant every constructor establishes and
    /// every method preserves.
    pub open spec fn wf(&self) -> bool {
        distinct_keys(self@)
    }

    pub fn new() -> (r: RecordIndex)
        ensures
            r.wf(),
            r@ == Seq::<EntryView>::empty(),
            r.as_map() == Map::<Seq<char>, Seq<Seq<char>>>::empty(),
    {
        let r = RecordIndex { entries: Vec::new() };
        proof {
            assert(r@ =~= Seq::<EntryView>::empty());
        }
        r
    }

    pub fn len(&self) -> (n: usize)
        ensures
            n == self@.len(),
    {
        self.entries.len()
    }

    /// Add one record under its key; a record already under that key is
    /// replaced, keys stay unique.
    pub fn insert(&mut self, key: String, fields: Vec<String>)
        requires
            old(self).wf(),
        ensures
            final(self).wf(),
            final(self)@ == upsert(
                old(self)@,
                EntryView { key: key@, fields: fields.deep_view() },
            ),
            final(self).as_map() == old(self).as_map().insert(key@, fields.deep_view()),
    {
        let ghost ev = EntryView { key: key@, fields: fields.deep_view() };
        let ghost es0 = self@;
        let n = self.entries.len();
        let mut i: usize = 0;
        while i < n
            invariant
                0 <= i <= n,
                n == self.entries@.len(),
                self@ == es0,
                self.entries@.len() == es0.len(),
                distinct_keys(es0),
                es0 == old(self)@,
                ev == (EntryView { key: key@, fields: fields.deep_view() }),
                forall|j: int| 0 <= j < i ==> (#[trigger] es0[j]).key != key@,
            decreases n - i,
        {
            proof {
                assert(self.entries@[i as int]@ == es0[i as int]);
            }
            if self.entries[i].key == key {
                proof {
                    assert(es0[i as int].key == key@);
                    assert(has_key(es0, ev.key));
                    let c = key_index(es0, ev.key);
                    assert(es0[c].key == ev.key);
                    assert(c == i as int);
                    lemma_map_update(es0, i as int, ev);
                }
                let ghost pre = self.entries@;
                let entry = IndexEntry { key, fields };
                proof {
                    assert(entry@ == ev);
                }
                self.entries[i] = entry;
                proof {
                    assert(self.entries@ == pre.update(i as int, entry));
                    assert forall|a: int| 0 <= a < es0.len() implies #[trigger] self@[a]
                        == es0.update(i as int, ev)[a] by {
                        assert(self@[a] == self.entries@[a]@);
                        if a != i as int {
                            assert(self.entries@[a] == pre[a]);
                            assert(pre[a]@ == es0[a]);
                        }
                    }
                    assert(self@ =~= es0.update(i as int, ev));
                }
                return ;
            }
            i = i + 1;
        }
        self.entries.push(IndexEntry { key, fields });
        proof {
            assert(self@ =~= es0.push(ev));
            assert(!has_key(es0, ev.key));
            assert(self@.drop_last() =~= es0);
            assert(self@.last() == ev);
            assert(distinct_keys(self@)) by {
                assert(forall|a: int| 0 <= a < es0.len() ==> #[trigger] self@[a] == es0[a]);
            }
        }
    }

    /// Look a key up; the record under it, if the key is present.
    pub fn get(&self, key: &String) -> (r: Option<&Vec<String>>)
        requires
            self.wf(),
        ensures
            match r {
                Some(fields) => self.key_set().contains(key@) && fields.deep_view()
                    == self.as_map()[key@],
                None => !self.key_set().contains(key@),
            },
    {
        let n = self.entries.len();
        let mut i: usize = 0;
        while i < n
            invariant
                0 <= i <= n,
                n == self@.len(),
                self.entries@.len() == self@.len(),
                self.wf(),
                forall|j: int| 0 <= j < i ==> (#[trigger] self@[j]).key != key@,
            decreases n - i,
        {
            proof {
                assert(self.entries@[i as int]@ == self@[i as int]);
            }
            if self.entries[i].key == *key {
                proof {
                    lemma_map_at(self@, i as int);
                }
                return Some(&self.entries[i].fields);
            }
            i = i + 1;
        }
        proof {
            lemma_map_dom_key(self@, key@);
        }
        None
    }

    /// Whether a key is present.
    pub fn contains_key(&self, key: &String) -> (r: bool)
        ensures
            r == self.key_set().contains(key@),
    {
        let n = self.entries.len();
        let mut i: usize = 0;
        while i < n
            invariant
                0 <= i <= n,
                n == self@.len(),
                self.entries@.len() == self@.len(),
                forall|j: int| 0 <= j < i ==> (#[trigger] self@[j]).key != key@,
            decreases n - i,
        {
            proof {
                assert(self.entries@[i as int]@ == self@[i as int]);
            }
            if self.entries[i].key == *key {
                proof {
                    assert(has_key(self@, key@));
                    lemma_map_dom_key(self@, key@);
                }
                return true;
            }
            i = i + 1;
        }
        proof {
            lemma_map_dom_key(self@, key@);
        }
        false
    }
}

/// The fields of one input line: the line is trimmed, then split on commas.
pub open spec fn line_fields(line: Seq<char>) -> Seq<Seq<char>> {
    split_chars(trim_spec(line), ',')
}

/// Whether a line's record is long enough for the key column.
pub open spec fn line_ok(line: Seq<char>, key_idx: int) -> bool {
    0 <= key_idx < line_fields(line).len()
}

pub open spec fn lines_ok(lines: Seq<Seq<char>>, key_idx: int) -> bool {
    forall|i: int| 0 <= i < lines.len() ==> line_ok(#[trigger] lines[i], key_idx)
}

/// The entry one line contributes: its fields, keyed by the key column.
pub open spec fn line_entry(line: Seq<char>, key_idx: int) -> EntryView {
    EntryView { key: line_fields(line)[key_idx], fields: line_fields(line) }
}

/// The entries of the whole input, lines folded in order; a later line with
/// the same key replaces the earlier one.
pub open spec fn index_entries(lines: Seq<Seq<char>>, key_idx: int) -> Seq<EntryView>
    decreases lines.len(),
{
    if lines.len() == 0 {
        Seq::empty()
    } else {
        upsert(index_entries(lines.drop_last(), key_idx), line_entry(lines.last(), key_idx))
    }
}

/// The key-to-record map of the whole input.
pub open spec fn index_map(lines: Seq<Seq<char>>, key_idx: int) -> Map<Seq<char>, Seq<Seq<char>>> {
    map_of_entries(index_entries(lines, key_idx))
}

/// Build the index of one input, given its lines and the 0-based key column.
/// Succeeds exactly when every line's record reaches the key column, and the
/// result is then the fold of the lines in order; otherwise the error names
/// the first line that falls short.
pub fn build_index(lines: &Vec<String>, key_idx: usize) -> (r: Result<RecordIndex, RecordError>)
    ensures
        r is Ok <==> lines_ok(lines.deep_view(), key_idx as int),
        r matches Ok(m) ==> {
            &&& m.wf()
            &&& m@ == index_entries(lines.deep_view(), key_idx as int)
            &&& m.as_map() == index_map(lines.deep_view(), key_idx as int)
        },
        r matches Err(e) ==> e matches RecordError::KeyColumnMissing { line } && line
            < lines.deep_view().len() && !line_ok(lines.deep_view()[line as int], key_idx as int)
            && (forall|j: int|
            0 <= j < line ==> line_ok(#[trigger] lines.deep_view()[j], key_idx as int)),
{
    let ghost dv = lines.deep_view();
    let mut idx = RecordIndex::new();
    let mut i: usize = 0;
    proof {
        assert(dv.take(0) =~= Seq::<Seq<char>>::empty());
    }
    while i < lines.len()
        invariant
            0 <= i <= lines.len(),
            dv == lines.deep_view(),
            dv.len() == lines.len(),
            idx.wf(),
            idx@ == index_entries(dv.take(i as int), key_idx as int),
            forall|j: int| 0 <= j < i ==> line_ok(#[trigger] dv[j], key_idx as int),
        decreases lines.len() - i,
    {
        proof {
            assert(lines@[i as int]@ == dv[i as int]);
        }
        let trimmed = trim(lines[i].as_str());
        let fields = split_str(trimmed, ',');
        proof {
            assert(fields.deep_view() == line_fields(dv[i as int]));
        }
        if key_idx >= fields.len() {
            return Err(RecordError::KeyColumnMissing { line: i });
        }
        let key = fields[key_idx].clone();
        proof {
            assert(key@ == fields@[key_idx as int]@);
            assert(key@ == line_fields(dv[i as int])[key_idx as int]);
        }
        let ghost before = idx@;
        idx.insert(key, fields);
        proof {
            assert(dv.take(i + 1).drop_last() =~= dv.take(i as int));
            assert(dv.take(i + 1).last() == dv[i as int]);
            assert(idx@ == upsert(before, line_entry(dv[i as int], key_idx as int)));
            assert(idx@ == index_entries(dv.take(i + 1), key_idx as int));
        }
        i = i + 1;
    }
    proof {
        assert(dv.take(lines.len() as int) =~= dv);
    }
    Ok(idx)
}

/// Indexing is a pure function of the input: two runs of the indexer over the
/// same lines and key column yield the same entries and the same mapping.
pub proof fn lemma_index_idempotent(
    lines: Seq<Seq<char>>,
    key_idx: int,
    e1: Seq<EntryView>,
    e2: Seq<EntryView>,
)
    requires
        e1 == index_entries(lines, key_idx),
        e2 == index_entries(lines, key_idx),
    ensures
        e1 == e2,
        map_of_entries(e1) == map_of_entries(e2),
{
}

} // verus!
