use keydiff::fields::PairFields;
use keydiff::index::{build_index, RecordIndex};
use keydiff::pipeline::run_diff;
use keydiff::project::{handle_difference, handle_intersection};
use keydiff::reconcile::{difference_keys, intersection_keys};
use keydiff::RecordError;

fn lines(v: &[&str]) -> Vec<String> {
    v.iter().map(|s| s.to_string()).collect()
}

fn index_of(v: &[&str], key_idx: usize) -> RecordIndex {
    build_index(&lines(v), key_idx).unwrap()
}

#[test]
fn parse_two_sided_spec() {
    let pf = PairFields::from_str("1,2:3,6,9").unwrap();
    assert_eq!(pf.0, vec![1, 2]);
    assert_eq!(pf.1, vec![3, 6, 9]);
}

#[test]
fn parse_single_index_spec() {
    let pf = PairFields::from_str("1:1").unwrap();
    assert_eq!(pf.0, vec![1]);
    assert_eq!(pf.1, vec![1]);
}

#[test]
fn parse_missing_colon_fails() {
    let e = PairFields::from_str("1,2,3").unwrap_err();
    assert_eq!(e.raw, "1,2,3");
}

#[test]
fn parse_empty_segment_fails() {
    assert!(PairFields::from_str(":1").is_err());
    assert!(PairFields::from_str("1:").is_err());
}

#[test]
fn parse_whitespace_segment_fails() {
    assert!(PairFields::from_str(" :1").is_err());
    assert!(PairFields::from_str("1: ").is_err());
}

#[test]
fn parse_zero_index_fails() {
    assert!(PairFields::from_str("0:1").is_err());
    assert!(PairFields::from_str("1:2,0").is_err());
}

#[test]
fn parse_non_numeric_fails() {
    assert!(PairFields::from_str("a:1").is_err());
    assert!(PairFields::from_str("1:1,x").is_err());
    assert!(PairFields::from_str("").is_err());
}

#[test]
fn parse_huge_index_fails() {
    assert!(PairFields::from_str("99999999999999999999999999:1").is_err());
}

#[test]
fn parse_leading_zeros_allowed() {
    let pf = PairFields::from_str("007:1").unwrap();
    assert_eq!(pf.0, vec![7]);
}

#[test]
fn index_maps_key_to_whole_record() {
    let m = index_of(&["1,foo", "2,bar"], 0);
    assert_eq!(m.len(), 2);
    assert_eq!(
        m.get(&"1".to_string()),
        Some(&vec!["1".to_string(), "foo".to_string()])
    );
    assert_eq!(
        m.get(&"2".to_string()),
        Some(&vec!["2".to_string(), "bar".to_string()])
    );
    assert_eq!(m.get(&"3".to_string()), None);
}

#[test]
fn index_rerun_is_identical() {
    let input = ["5,e,f", "2,a,b", "9,x,y"];
    let m1 = index_of(&input, 0);
    let m2 = index_of(&input, 0);
    assert_eq!(m1, m2);
}

#[test]
fn index_last_record_wins() {
    let m = index_of(&["1,foo", "1,baz"], 0);
    assert_eq!(m.len(), 1);
    assert_eq!(
        m.get(&"1".to_string()),
        Some(&vec!["1".to_string(), "baz".to_string()])
    );
}

#[test]
fn index_trims_line_ends() {
    let m = index_of(&["  1,foo\r", "\t2,bar "], 0);
    assert_eq!(
        m.get(&"1".to_string()),
        Some(&vec!["1".to_string(), "foo".to_string()])
    );
    assert_eq!(
        m.get(&"2".to_string()),
        Some(&vec!["2".to_string(), "bar".to_string()])
    );
}

#[test]
fn index_short_line_is_reported() {
    let e = build_index(&lines(&["1,foo", "z"]), 1).unwrap_err();
    assert_eq!(e, RecordError::KeyColumnMissing { line: 1 });
}

#[test]
fn reconcile_key_partition() {
    let a = index_of(&["1,foo", "2,bar"], 0);
    let b = index_of(&["2,bar", "3,baz"], 0);
    assert_eq!(difference_keys(&a, &b), vec!["1".to_string()]);
    assert_eq!(difference_keys(&b, &a), vec!["3".to_string()]);
    assert_eq!(intersection_keys(&a, &b), vec!["2".to_string()]);
}

#[test]
fn difference_emits_whole_rows() {
    let a = index_of(&["1,foo", "2,bar"], 0);
    let b = index_of(&["2,bar", "3,baz"], 0);
    let mut out: Vec<String> = Vec::new();
    handle_difference(&a, &b, &mut out);
    assert_eq!(out, vec!["1,foo".to_string()]);
}

#[test]
fn difference_appends_and_accumulates() {
    let a = index_of(&["1,foo", "2,bar"], 0);
    let b = index_of(&["2,bar"], 0);
    let mut out: Vec<String> = vec!["old".to_string()];
    handle_difference(&a, &b, &mut out);
    handle_difference(&a, &b, &mut out);
    assert_eq!(
        out,
        vec!["old".to_string(), "1,foo".to_string(), "1,foo".to_string()]
    );
}

#[test]
fn intersection_projects_selected_columns() {
    let m1 = index_of(&["k,x,y"], 0);
    let m2 = index_of(&["k,p,q"], 0);
    let mut out: Vec<String> = Vec::new();
    handle_intersection(&m1, &m2, &vec![2], &vec![1], &mut out).unwrap();
    assert_eq!(out, vec!["x,k".to_string()]);
}

#[test]
fn intersection_without_fields_concatenates_rows() {
    let m1 = index_of(&["2,bar"], 0);
    let m2 = index_of(&["2,bar"], 0);
    let mut out: Vec<String> = Vec::new();
    handle_intersection(&m1, &m2, &Vec::new(), &Vec::new(), &mut out).unwrap();
    assert_eq!(out, vec!["2,bar,2,bar".to_string()]);
}

#[test]
fn intersection_one_sided_fields() {
    let m1 = index_of(&["k,x,y"], 0);
    let m2 = index_of(&["k,p,q"], 0);
    let mut out: Vec<String> = Vec::new();
    handle_intersection(&m1, &m2, &vec![3, 2], &Vec::new(), &mut out).unwrap();
    assert_eq!(out, vec!["y,x".to_string()]);
}

#[test]
fn intersection_bad_column_is_reported() {
    let m1 = index_of(&["k,x"], 0);
    let m2 = index_of(&["k,p"], 0);
    let mut out: Vec<String> = vec!["kept".to_string()];
    let e = handle_intersection(&m1, &m2, &vec![5], &vec![1], &mut out).unwrap_err();
    assert_eq!(e, RecordError::FieldOutOfRange { key: "k".to_string() });
    assert_eq!(out, vec!["kept".to_string()]);
}

#[test]
fn intersection_zero_column_is_reported() {
    let m1 = index_of(&["k,x"], 0);
    let m2 = index_of(&["k,p"], 0);
    let mut out: Vec<String> = Vec::new();
    assert!(handle_intersection(&m1, &m2, &vec![1], &vec![0], &mut out).is_err());
}

#[test]
fn end_to_end_scenario() {
    let l1 = lines(&["1,foo", "2,bar"]);
    let l2 = lines(&["2,bar", "3,baz"]);
    let check = PairFields::from_str("1:1").unwrap();
    let out = run_diff(&l1, &l2, &check, &None).unwrap();
    assert_eq!(out.a_minus_b, vec!["1,foo".to_string()]);
    assert_eq!(out.b_minus_a, vec!["3,baz".to_string()]);
    assert_eq!(out.intersect, vec!["2,bar,2,bar".to_string()]);
}

#[test]
fn end_to_end_with_output_fields() {
    let l1 = lines(&["2,bar,extra"]);
    let l2 = lines(&["2,bar,other"]);
    let check = PairFields::from_str("1:1").unwrap();
    let of = PairFields::from_str("2:3").unwrap();
    let out = run_diff(&l1, &l2, &check, &Some(of)).unwrap();
    assert!(out.a_minus_b.is_empty());
    assert!(out.b_minus_a.is_empty());
    assert_eq!(out.intersect, vec!["bar,other".to_string()]);
}

#[test]
fn end_to_end_rerun_doubles_output() {
    let l1 = lines(&["1,foo", "2,bar"]);
    let l2 = lines(&["2,bar", "3,baz"]);
    let check = PairFields::from_str("1:1").unwrap();
    let mut a_b: Vec<String> = Vec::new();
    let mut b_a: Vec<String> = Vec::new();
    let mut both: Vec<String> = Vec::new();
    for _ in 0..2 {
        let out = run_diff(&l1, &l2, &check, &None).unwrap();
        a_b.extend(out.a_minus_b);
        b_a.extend(out.b_minus_a);
        both.extend(out.intersect);
    }
    assert_eq!(a_b, vec!["1,foo".to_string(), "1,foo".to_string()]);
    assert_eq!(b_a, vec!["3,baz".to_string(), "3,baz".to_string()]);
    assert_eq!(
        both,
        vec!["2,bar,2,bar".to_string(), "2,bar,2,bar".to_string()]
    );
}

#[test]
fn end_to_end_short_line_fails() {
    let l1 = lines(&["1,foo"]);
    let l2 = lines(&["2"]);
    let check = PairFields::from_str("1:2").unwrap();
    let e = run_diff(&l1, &l2, &check, &None).unwrap_err();
    assert_eq!(e, RecordError::KeyColumnMissing { line: 0 });
}

#[test]
fn empty_input_yields_empty_outputs() {
    let l1: Vec<String> = Vec::new();
    let l2 = lines(&["1,a"]);
    let check = PairFields::from_str("1:1").unwrap();
    let out = run_diff(&l1, &l2, &check, &None).unwrap();
    assert!(out.a_minus_b.is_empty());
    assert_eq!(out.b_minus_a, vec!["1,a".to_string()]);
    assert!(out.intersect.is_empty());
}

#[test]
fn empty_line_indexes_empty_key() {
    let m = index_of(&[""], 0);
    assert_eq!(m.len(), 1);
    assert_eq!(m.get(&"".to_string()), Some(&vec!["".to_string()]));
}

#[test]
fn unicode_fields_survive() {
    let m = index_of(&["α,β"], 0);
    assert_eq!(
        m.get(&"α".to_string()),
        Some(&vec!["α".to_string(), "β".to_string()])
    );
}

#[test]
fn outputs_follow_first_input_order() {
    let l1 = lines(&["3,c", "1,a", "2,b"]);
    let l2 = lines(&["2,x"]);
    let check = PairFields::from_str("1:1").unwrap();
    let out = run_diff(&l1, &l2, &check, &None).unwrap();
    assert_eq!(out.a_minus_b, vec!["3,c".to_string(), "1,a".to_string()]);
    assert_eq!(out.intersect, vec!["2,b,2,x".to_string()]);
}
