//! The whole reconciliation run as one parametrized pipeline: index both
//! inputs, then emit the two one-sided differences and the intersection.

use vstd::prelude::*;

use crate::fields::PairFields;
use crate::index::{
    build_index, index_entries, line_ok, lines_ok, map_of_entries, RecordIndex,
};
use crate::project::{
    diff_lines, handle_difference, handle_intersection, inter_entry_ok, inter_lines, inter_ok,
};
use crate::RecordError;

verus! {

/// The three outputs of one run, each a sequence of comma-joined lines.
#[derive(Debug)]
pub struct DiffOutput {
    /// Rows of the first input whose key is absent from the second.
    pub a_minus_b: Vec<String>,
    /// Rows of the second input whose key is absent from the first.
    pub b_minus_a: Vec<String>,
    /// One row per key present in both inputs.
    pub intersect: Vec<String>,
}

/// The left output-column list; empty when no output spec was given.
pub open spec fn out_fields_left(of: Option<PairFields>) -> Seq<usize> {
    match of {
        Some(pf) => pf.0@,
        None => Seq::empty(),
    }
}

/// The right output-column list; empty when no output spec was given.
pub open spec fn out_fields_right(of: Option<PairFields>) -> Seq<usize> {
    match of {
        Some(pf) => pf.1@,
        None => Seq::empty(),
    }
}

/// What a run's error points at: a line of one of the inputs too short for
/// its key column, or a shared key whose records cannot be projected.
pub open spec fn run_error_witnessed(
    e: RecordError,
    l1: Seq<Seq<char>>,
    l2: Seq<Seq<char>>,
    k1: int,
    k2: int,
    e1: Seq<crate::index::EntryView>,
    m2: Map<Seq<char>, Seq<Seq<char>>>,
    f1: Seq<usize>,
    f2: Seq<usize>,
) -> bool {
    match e {
        RecordError::KeyColumnMissing { line } => (line < l1.len() && !line_ok(
            l1[line as int],
            k1,
        )) || (line < l2.len() && !line_ok(l2[line as int], k2)),
        RecordError::FieldOutOfRange { key } => exists|i: int|
            0 <= i < e1.len() && (#[trigger] e1[i]).key == key@ && !inter_entry_ok(
                e1[i],
                m2,
                f1,
                f2,
            ),
    }
}

/// Run the whole comparison: index each input on its key column (1-based,
/// the first index of each side of `check_field`), and produce the three
/// outputs. Succeeds exactly when every line reaches its key column and
/// every shared key's records reach all selected output columns; the error
/// otherwise names the first short line or the offending key.
pub fn run_diff(
    lines1: &Vec<String>,
    lines2: &Vec<String>,
    check_field: &PairFields,
    output_fields: &Option<PairFields>,
) -> (r: Result<DiffOutput, RecordError>)
    requires
        check_field.0@.len() >= 1,
        check_field.1@.len() >= 1,
        check_field.0@[0] >= 1,
        check_field.1@[0] >= 1,
    ensures
        ({
            let k1 = check_field.0@[0] - 1;
            let k2 = check_field.1@[0] - 1;
            let e1 = index_entries(lines1.deep_view(), k1);
            let e2 = index_entries(lines2.deep_view(), k2);
            let f1 = out_fields_left(*output_fields);
            let f2 = out_fields_right(*output_fields);
            &&& (r is Ok <==> lines_ok(lines1.deep_view(), k1) && lines_ok(
                lines2.deep_view(),
                k2,
            ) && inter_ok(e1, map_of_entries(e2), f1, f2))
            &&& (r matches Ok(o) ==> {
                &&& o.a_minus_b.deep_view() == diff_lines(e1, map_of_entries(e2).dom())
                &&& o.b_minus_a.deep_view() == diff_lines(e2, map_of_entries(e1).dom())
                &&& o.intersect.deep_view() == inter_lines(e1, map_of_entries(e2), f1, f2)
            })
            &&& (r matches Err(e) ==> run_error_witnessed(
                e,
                lines1.deep_view(),
                lines2.deep_view(),
                k1,
                k2,
                e1,
                map_of_entries(e2),
                f1,
                f2,
            ))
        }),
{
    let k1 = check_field.0[0] - 1;
    let k2 = check_field.1[0] - 1;
    let m1 = match build_index(lines1, k1) {
        Ok(m) => m,
        Err(e) => {
            return Err(e);
        },
    };
    let m2 = match build_index(lines2, k2) {
        Ok(m) => m,
        Err(e) => {
            return Err(e);
        },
    };
    let mut a_minus_b: Vec<String> = Vec::new();
    handle_difference(&m1, &m2, &mut a_minus_b);
    let mut b_minus_a: Vec<String> = Vec::new();
    handle_difference(&m2, &m1, &mut b_minus_a);
    proof {
        assert(a_minus_b.deep_view() =~= diff_lines(m1@, m2.key_set()));
        assert(b_minus_a.deep_view() =~= diff_lines(m2@, m1.key_set()));
    }
    let mut intersect: Vec<String> = Vec::new();
    let res = match output_fields {
        Some(of) => handle_intersection(&m1, &m2, &of.0, &of.1, &mut intersect),
        None => {
            let empty1: Vec<usize> = Vec::new();
            let empty2: Vec<usize> = Vec::new();
            proof {
                assert(empty1@ =~= Seq::<usize>::empty());
                assert(empty2@ =~= Seq::<usize>::empty());
            }
            handle_intersection(&m1, &m2, &empty1, &empty2, &mut intersect)
        },
    };
    match res {
        Ok(()) => {
            proof {
                assert(intersect.deep_view() =~= inter_lines(
                    m1@,
                    m2.as_map(),
                    out_fields_left(*output_fields),
                    out_fields_right(*output_fields),
                ));
            }
            Ok(DiffOutput { a_minus_b, b_minus_a, intersect })
        },
        Err(e) => Err(e),
    }
}

} // verus!
