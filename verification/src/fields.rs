//! The field-spec parser: a compact two-sided column specification such as
//! `"1,2:3,6,9"` names columns of the first and second input, one comma-list
//! per side, the sides separated by a colon. Columns count from 1.

use vstd::prelude::*;

use crate::strutil::{
    digits_val, is_pos_index, lemma_split_min_len, parse_pos_index, split_chars, split_str,
};
use crate::ConfigError;

verus! {

/// A segment is valid when every comma-separated piece of it is a positive
/// column index.
pub open spec fn valid_segment(seg: Seq<char>) -> bool {
    forall|j: int|
        0 <= j < split_chars(seg, ',').len() ==> is_pos_index(#[trigger] split_chars(seg, ',')[j])
}

/// The column indices a valid segment denotes, in order.
pub open spec fn segment_indices(seg: Seq<char>) -> Seq<usize> {
    split_chars(seg, ',').map_values(|p: Seq<char>| digits_val(p) as usize)
}

/// A whole field-spec string is well formed when the colon cuts it into
/// exactly two valid segments.
pub open spec fn pair_fields_ok(s: Seq<char>) -> bool {
    &&& split_chars(s, ':').len() == 2
    &&& valid_segment(split_chars(s, ':')[0])
    &&& valid_segment(split_chars(s, ':')[1])
}

/// An ordered pair of column-index lists, one per input side.
#[derive(Debug, PartialEq)]
pub struct PairFields(pub Vec<usize>, pub Vec<usize>);

fn parse_segment(seg: &str) -> (r: Option<Vec<usize>>)
    ensures
        r is Some <==> valid_segment(seg@),
        r matches Some(v) ==> v@ == segment_indices(seg@),
{
    let pieces = split_str(seg, ',');
    let mut out: Vec<usize> = Vec::new();
    let mut i: usize = 0;
    while i < pieces.len()
        invariant
            0 <= i <= pieces.len(),
            pieces.deep_view() == split_chars(seg@, ','),
            pieces.deep_view().len() == pieces.len(),
            out@.len() == i,
            forall|j: int| 0 <= j < i ==> is_pos_index(#[trigger] pieces.deep_view()[j]),
            forall|j: int|
                0 <= j < i ==> #[trigger] out@[j] as int == digits_val(pieces.deep_view()[j]),
        decreases pieces.len() - i,
    {
        proof {
            assert(pieces@[i as int]@ == pieces.deep_view()[i as int]);
        }
        match parse_pos_index(pieces[i].as_str()) {
            Some(v) => {
                out.push(v);
            },
            None => {
                proof {
                    assert(!is_pos_index(pieces.deep_view()[i as int]));
                }
                return None;
            },
        }
        i = i + 1;
    }
    proof {
        assert(out@ =~= segment_indices(seg@));
    }
    Some(out)
}

impl PairFields {
    /// The left-hand column list, as the spec sees it.
    pub open spec fn left(&self) -> Seq<usize> {
        self.0@
    }

    /// The right-hand column list, as the spec sees it.
    pub open spec fn right(&self) -> Seq<usize> {
        self.1@
    }

    /// Parse a field-spec string. Succeeds exactly on well-formed input,
    /// returning the two index lists in order; each side then has at least
    /// one index and every index is at least 1.
    pub fn from_str(s: &str) -> (r: Result<PairFields, ConfigError>)
        ensures
            r is Ok <==> pair_fields_ok(s@),
            r matches Ok(pf) ==> {
                &&& pf.left() == segment_indices(split_chars(s@, ':')[0])
                &&& pf.right() == segment_indices(split_chars(s@, ':')[1])
                &&& pf.left().len() >= 1
                &&& pf.right().len() >= 1
                &&& forall|j: int| 0 <= j < pf.left().len() ==> #[trigger] pf.left()[j] >= 1
                &&& forall|j: int| 0 <= j < pf.right().len() ==> #[trigger] pf.right()[j] >= 1
            },
            r matches Err(e) ==> e.raw@ == s@,
    {
        let segs = split_str(s, ':');
        if segs.len() != 2 {
            return Err(ConfigError { raw: s.to_owned() });
        }
        proof {
            assert(segs@[0]@ == split_chars(s@, ':')[0]);
            assert(segs@[1]@ == split_chars(s@, ':')[1]);
        }
        let left = match parse_segment(segs[0].as_str()) {
            Some(v) => v,
            None => {
                return Err(ConfigError { raw: s.to_owned() });
            },
        };
        let right = match parse_segment(segs[1].as_str()) {
            Some(v) => v,
            None => {
                return Err(ConfigError { raw: s.to_owned() });
            },
        };
        proof {
            let seg0 = split_chars(s@, ':')[0];
            let seg1 = split_chars(s@, ':')[1];
            lemma_split_min_len(seg0, ',');
            lemma_split_min_len(seg1, ',');
            assert forall|j: int| 0 <= j < left@.len() implies #[trigger] left@[j] >= 1 by {
                assert(is_pos_index(split_chars(seg0, ',')[j]));
                assert(left@[j] == digits_val(split_chars(seg0, ',')[j]) as usize);
            }
            assert forall|j: int| 0 <= j < right@.len() implies #[trigger] right@[j] >= 1 by {
                assert(is_pos_index(split_chars(seg1, ',')[j]));
                assert(right@[j] == digits_val(split_chars(seg1, ',')[j]) as usize);
            }
        }
        Ok(PairFields(left, right))
    }
}

} // verus!
