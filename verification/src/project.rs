//! The output projector: assemble one comma-joined line per reconciled key,
//! appending to a destination buffer. Difference lines carry the whole
//! original record; intersection lines carry the selected columns of both
//! sides, or both whole records when no columns are selected.

use vstd::prelude::*;

use crate::index::{
    distinct_keys, has_key, lemma_map_dom_key, map_of_entries, EntryView, RecordIndex,
};
use crate::reconcile::{diff_keys, inter_keys};
use crate::strutil::{join_comma, join_fields};
use crate::RecordError;

verus! {

/// Whether every 1-based index selects an existing field of the record.
pub open spec fn proj_ok(rec: Seq<Seq<char>>, idxs: Seq<usize>) -> bool {
    forall|j: int| 0 <= j < idxs.len() ==> 1 <= #[trigger] idxs[j] && idxs[j] <= rec.len()
}

/// The fields the 1-based indices select, in selection order.
pub open spec fn proj(rec: Seq<Seq<char>>, idxs: Seq<usize>) -> Seq<Seq<char>> {
    Seq::new(idxs.len(), |j: int| rec[idxs[j] - 1])
}

/// One intersection output line: the selected columns of both sides when any
/// are selected, the full concatenation of both records otherwise.
pub open spec fn inter_line(
    rec1: Seq<Seq<char>>,
    rec2: Seq<Seq<char>>,
    f1: Seq<usize>,
    f2: Seq<usize>,
) -> Seq<char> {
    if f1.len() + f2.len() > 0 {
        join_fields(proj(rec1, f1) + proj(rec2, f2), ',')
    } else {
        join_fields(rec1 + rec2, ',')
    }
}

/// The difference output: one comma-joined line per entry whose key is absent
/// from `other`, in entry order.
pub open spec fn diff_lines(es: Seq<EntryView>, other: Set<Seq<char>>) -> Seq<Seq<char>>
    decreases es.len(),
{
    if es.len() == 0 {
        Seq::empty()
    } else {
        let init = diff_lines(es.drop_last(), other);
        if !other.contains(es.last().key) {
            init.push(join_fields(es.last().fields, ','))
        } else {
            init
        }
    }
}

/// Whether one entry of the first side can be projected: its key is not
/// shared, or both sides' records reach every selected column.
pub open spec fn inter_entry_ok(
    e: EntryView,
    m2: Map<Seq<char>, Seq<Seq<char>>>,
    f1: Seq<usize>,
    f2: Seq<usize>,
) -> bool {
    m2.dom().contains(e.key) ==> proj_ok(e.fields, f1) && proj_ok(m2[e.key], f2)
}

pub open spec fn inter_ok(
    es: Seq<EntryView>,
    m2: Map<Seq<char>, Seq<Seq<char>>>,
    f1: Seq<usize>,
    f2: Seq<usize>,
) -> bool {
    forall|i: int| 0 <= i < es.len() ==> inter_entry_ok(#[trigger] es[i], m2, f1, f2)
}

/// The intersection output: one line per entry whose key is in `m2`, in entry
/// order.
pub open spec fn inter_lines(
    es: Seq<EntryView>,
    m2: Map<Seq<char>, Seq<Seq<char>>>,
    f1: Seq<usize>,
    f2: Seq<usize>,
) -> Seq<Seq<char>>
    decreases es.len(),
{
    if es.len() == 0 {
        Seq::empty()
    } else {
        let init = inter_lines(es.drop_last(), m2, f1, f2);
        let e = es.last();
        if m2.dom().contains(e.key) {
            init.push(inter_line(e.fields, m2[e.key], f1, f2))
        } else {
            init
        }
    }
}

/// Append to `out` one line for every record of `src` whose key is absent
/// from `other`: the record's fields joined with commas, in entry order.
/// Only appends; what was in `out` stays.
pub fn handle_difference(src: &RecordIndex, other: &RecordIndex, out: &mut Vec<String>)
    ensures
        final(out).deep_view() == old(out).deep_view() + diff_lines(src@, other.key_set()),
{
    let ghost es = src@;
    let ghost base = old(out).deep_view();
    let mut i: usize = 0;
    let n = src.entries.len();
    proof {
        assert(es.take(0) =~= Seq::<EntryView>::empty());
        assert(out.deep_view() =~= base + diff_lines(es.take(0), other.key_set()));
    }
    while i < n
        invariant
            0 <= i <= n,
            n == es.len(),
            es == src@,
            src.entries@.len() == es.len(),
            out.deep_view() == base + diff_lines(es.take(i as int), other.key_set()),
        decreases n - i,
    {
        proof {
            assert(src.entries@[i as int]@ == es[i as int]);
            assert(es.take(i + 1).drop_last() =~= es.take(i as int));
            assert(es.take(i + 1).last() == es[i as int]);
        }
        let ghost o_old = out.deep_view();
        if !other.contains_key(&src.entries[i].key) {
            let line = join_comma(&src.entries[i].fields);
            out.push(line);
            proof {
                assert(out.deep_view() =~= o_old.push(join_fields(es[i as int].fields, ',')));
                assert(out.deep_view() =~= base + diff_lines(es.take(i + 1), other.key_set()));
            }
        }
        i = i + 1;
    }
    proof {
        assert(es.take(n as int) =~= es);
    }
}

fn project_fields(rec: &Vec<String>, idxs: &Vec<usize>) -> (r: Option<Vec<String>>)
    ensures
        r is Some <==> proj_ok(rec.deep_view(), idxs@),
        r matches Some(v) ==> v.deep_view() == proj(rec.deep_view(), idxs@),
{
    let mut out: Vec<String> = Vec::new();
    let mut j: usize = 0;
    proof {
        assert(out.deep_view() =~= Seq::<Seq<char>>::empty());
    }
    while j < idxs.len()
        invariant
            0 <= j <= idxs.len(),
            out.deep_view().len() == j,
            rec.deep_view().len() == rec.len(),
            forall|t: int|
                0 <= t < j ==> 1 <= #[trigger] idxs@[t] && idxs@[t] <= rec.deep_view().len(),
            forall|t: int|
                0 <= t < j ==> #[trigger] out.deep_view()[t] == rec.deep_view()[idxs@[t] - 1],
        decreases idxs.len() - j,
    {
        let idx = idxs[j];
        if idx == 0 || idx > rec.len() {
            proof {
                assert(!(1 <= idxs@[j as int] && idxs@[j as int] <= rec.deep_view().len()));
            }
            return None;
        }
        let ghost o_old = out.deep_view();
        out.push(rec[idx - 1].clone());
        proof {
            assert(rec@[idx - 1]@ == rec.deep_view()[idx - 1]);
            assert(out.deep_view() =~= o_old.push(rec.deep_view()[idxs@[j as int] - 1]));
        }
        j = j + 1;
    }
    proof {
        assert(out.deep_view() =~= proj(rec.deep_view(), idxs@));
    }
    Some(out)
}

fn copy_strings(v: &Vec<String>) -> (r: Vec<String>)
    ensures
        r.deep_view() == v.deep_view(),
{
    let mut r: Vec<String> = Vec::new();
    let mut i: usize = 0;
    proof {
        assert(r.deep_view() =~= v.deep_view().take(0));
    }
    while i < v.len()
        invariant
            0 <= i <= v.len(),
            v.deep_view().len() == v.len(),
            r.deep_view() == v.deep_view().take(i as int),
        decreases v.len() - i,
    {
        let ghost r_old = r.deep_view();
        r.push(v[i].clone());
        proof {
            assert(v@[i as int]@ == v.deep_view()[i as int]);
            assert(r.deep_view() =~= r_old.push(v.deep_view()[i as int]));
            assert(r.deep_view() =~= v.deep_view().take(i + 1));
        }
        i = i + 1;
    }
    proof {
        assert(v.deep_view().take(v.len() as int) =~= v.deep_view());
    }
    r
}

/// Append to `out` one line for every key present in both indexes, in the
/// first index's entry order: the selected columns of both sides, or both
/// whole records when no columns are selected. Succeeds exactly when every
/// shared key's records reach all selected columns; on failure `out` is left
/// unchanged and the error carries the first offending key.
pub fn handle_intersection(
    m1: &RecordIndex,
    m2: &RecordIndex,
    fields1: &Vec<usize>,
    fields2: &Vec<usize>,
    out: &mut Vec<String>,
) -> (r: Result<(), RecordError>)
    requires
        m2.wf(),
    ensures
        r is Ok <==> inter_ok(m1@, m2.as_map(), fields1@, fields2@),
        r is Ok ==> final(out).deep_view() == old(out).deep_view() + inter_lines(
            m1@,
            m2.as_map(),
            fields1@,
            fields2@,
        ),
        r is Err ==> final(out)@ == old(out)@,
        r matches Err(e) ==> e matches RecordError::FieldOutOfRange { key } && exists|i: int|
            {
                &&& 0 <= i < m1@.len()
                &&& (#[trigger] m1@[i]).key == key@
                &&& !inter_entry_ok(m1@[i], m2.as_map(), fields1@, fields2@)
            },
{
    let ghost es = m1@;
    let ghost mm = m2.as_map();
    let mut lines: Vec<String> = Vec::new();
    let mut i: usize = 0;
    let n = m1.entries.len();
    proof {
        assert(es.take(0) =~= Seq::<EntryView>::empty());
        assert(lines.deep_view() =~= inter_lines(es.take(0), mm, fields1@, fields2@));
    }
    while i < n
        invariant
            0 <= i <= n,
            n == es.len(),
            es == m1@,
            mm == m2.as_map(),
            m1.entries@.len() == es.len(),
            m2.wf(),
            lines.deep_view() == inter_lines(es.take(i as int), mm, fields1@, fields2@),
            forall|j: int| 0 <= j < i ==> inter_entry_ok(#[trigger] es[j], mm, fields1@, fields2@),
        decreases n - i,
    {
        proof {
            assert(m1.entries@[i as int]@ == es[i as int]);
            assert(es.take(i + 1).drop_last() =~= es.take(i as int));
            assert(es.take(i + 1).last() == es[i as int]);
        }
        let ghost l_old = lines.deep_view();
        match m2.get(&m1.entries[i].key) {
            Some(rec2) => {
                let sel1 = match project_fields(&m1.entries[i].fields, fields1) {
                    Some(v) => v,
                    None => {
                        return Err(
                            RecordError::FieldOutOfRange { key: m1.entries[i].key.clone() },
                        );
                    },
                };
                let mut sel2 = match project_fields(rec2, fields2) {
                    Some(v) => v,
                    None => {
                        return Err(
                            RecordError::FieldOutOfRange { key: m1.entries[i].key.clone() },
                        );
                    },
                };
                let line = if fields1.len() > 0 || fields2.len() > 0 {
                    let mut sel = sel1;
                    sel.append(&mut sel2);
                    proof {
                        assert(sel.deep_view() =~= proj(es[i as int].fields, fields1@) + proj(
                            mm[es[i as int].key],
                            fields2@,
                        ));
                    }
                    join_comma(&sel)
                } else {
                    let mut full = copy_strings(&m1.entries[i].fields);
                    let mut tail = copy_strings(rec2);
                    full.append(&mut tail);
                    proof {
                        assert(full.deep_view() =~= es[i as int].fields + mm[es[i as int].key]);
                    }
                    join_comma(&full)
                };
                proof {
                    assert(line@ == inter_line(
                        es[i as int].fields,
                        mm[es[i as int].key],
                        fields1@,
                        fields2@,
                    ));
                }
                lines.push(line);
                proof {
                    assert(lines.deep_view() =~= l_old.push(inter_line(
                        es[i as int].fields,
                        mm[es[i as int].key],
                        fields1@,
                        fields2@,
                    )));
                    assert(lines.deep_view() =~= inter_lines(es.take(i + 1), mm, fields1@, fields2@));
                }
            },
            None => {
                proof {
                    assert(lines.deep_view() =~= inter_lines(es.take(i + 1), mm, fields1@, fields2@));
                }
            },
        }
        i = i + 1;
    }
    proof {
        assert(es.take(n as int) =~= es);
    }
    let ghost base = out.deep_view();
    out.append(&mut lines);
    proof {
        assert(out.deep_view() =~= base + inter_lines(es, mm, fields1@, fields2@));
    }
    Ok(())
}

/// Each difference line belongs to one reconciled key, in order: line `i` is
/// the comma-joined record that the source index holds under the `i`-th key
/// of the key difference.
pub proof fn lemma_diff_lines_are_keyed(es: Seq<EntryView>, other: Set<Seq<char>>)
    requires
        distinct_keys(es),
    ensures
        diff_lines(es, other).len() == diff_keys(es, other).len(),
        forall|i: int|
            0 <= i < diff_keys(es, other).len() ==> map_of_entries(es).dom().contains(
                #[trigger] diff_keys(es, other)[i],
            ) && diff_lines(es, other)[i] == join_fields(
                map_of_entries(es)[diff_keys(es, other)[i]],
                ',',
            ),
    decreases es.len(),
{
    if es.len() > 0 {
        let pre = es.drop_last();
        assert(distinct_keys(pre)) by {
            assert(forall|a: int| 0 <= a < es.len() - 1 ==> #[trigger] pre[a] == es[a]);
        }
        lemma_diff_lines_are_keyed(pre, other);
        let last = es.last();
        lemma_map_dom_key(pre, last.key);
        assert(!has_key(pre, last.key)) by {
            if has_key(pre, last.key) {
                let j = choose|j: int|
                    0 <= j < pre.len() && (#[trigger] pre[j]).key == last.key;
                assert(es[j].key == es[es.len() - 1].key);
            }
        }
        assert forall|i: int| 0 <= i < diff_keys(es, other).len() implies map_of_entries(
            es,
        ).dom().contains(#[trigger] diff_keys(es, other)[i]) && diff_lines(es, other)[i]
            == join_fields(map_of_entries(es)[diff_keys(es, other)[i]], ',') by {
            if i < diff_keys(pre, other).len() {
                assert(diff_keys(es, other)[i] == diff_keys(pre, other)[i]);
                assert(diff_keys(pre, other)[i] != last.key);
            } else {
                assert(diff_keys(es, other)[i] == last.key);
                assert(map_of_entries(es)[last.key] == last.fields);
            }
        }
    }
}

/// Each intersection line belongs to one shared key, in order: line `i` is
/// the projection of the two records held under the `i`-th shared key.
pub proof fn lemma_inter_lines_are_keyed(
    es: Seq<EntryView>,
    m2: Map<Seq<char>, Seq<Seq<char>>>,
    f1: Seq<usize>,
    f2: Seq<usize>,
)
    requires
        distinct_keys(es),
    ensures
        inter_lines(es, m2, f1, f2).len() == inter_keys(es, m2.dom()).len(),
        forall|i: int|
            0 <= i < inter_keys(es, m2.dom()).len() ==> map_of_entries(es).dom().contains(
                #[trigger] inter_keys(es, m2.dom())[i],
            ) && inter_lines(es, m2, f1, f2)[i] == inter_line(
                map_of_entries(es)[inter_keys(es, m2.dom())[i]],
                m2[inter_keys(es, m2.dom())[i]],
                f1,
                f2,
            ),
    decreases es.len(),
{
    if es.len() > 0 {
        let pre = es.drop_last();
        assert(distinct_keys(pre)) by {
            assert(forall|a: int| 0 <= a < es.len() - 1 ==> #[trigger] pre[a] == es[a]);
        }
        lemma_inter_lines_are_keyed(pre, m2, f1, f2);
        let last = es.last();
        lemma_map_dom_key(pre, last.key);
        assert(!has_key(pre, last.key)) by {
            if has_key(pre, last.key) {
                let j = choose|j: int|
                    0 <= j < pre.len() && (#[trigger] pre[j]).key == last.key;
                assert(es[j].key == es[es.len() - 1].key);
            }
        }
        let ks = inter_keys(es, m2.dom());
        assert forall|i: int| 0 <= i < ks.len() implies map_of_entries(es).dom().contains(
            #[trigger] ks[i],
        ) && inter_lines(es, m2, f1, f2)[i] == inter_line(
            map_of_entries(es)[ks[i]],
            m2[ks[i]],
            f1,
            f2,
        ) by {
            if i < inter_keys(pre, m2.dom()).len() {
                assert(ks[i] == inter_keys(pre, m2.dom())[i]);
                assert(inter_keys(pre, m2.dom())[i] != last.key);
            } else {
                assert(ks[i] == last.key);
                assert(map_of_entries(es)[last.key] == last.fields);
            }
        }
    }
}

/// Intersection fallback: with no output columns selected, an intersecting
/// key's line is both full records joined with commas, first side's fields
/// first.
pub proof fn lemma_intersection_fallback(rec1: Seq<Seq<char>>, rec2: Seq<Seq<char>>)
    ensures
        inter_line(rec1, rec2, Seq::<usize>::empty(), Seq::<usize>::empty()) == join_fields(
            rec1 + rec2,
            ',',
        ),
{
}

/// Append accumulation: the emitters only append, so a second run over the
/// same inputs leaves the destination with the first run's content followed
/// by the same lines again, doubling the added line count.
pub proof fn lemma_append_accumulation(
    base: Seq<Seq<char>>,
    once: Seq<Seq<char>>,
    twice: Seq<Seq<char>>,
    emitted: Seq<Seq<char>>,
)
    requires
        once == base + emitted,
        twice == once + emitted,
    ensures
        twice == base + emitted + emitted,
        twice.len() == base.len() + 2 * emitted.len(),
{
    assert(twice =~= base + emitted + emitted);
}

} // verus!
