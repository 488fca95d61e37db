//! String machinery for delimited records: trimming line ends, splitting on a
//! separator, joining fields, and reading positive decimal numbers.

use vstd::prelude::*;

verus! {

/// The ASCII whitespace characters stripped from the ends of a line.
pub open spec fn is_space(c: char) -> bool {
    c == ' ' || c == '\t' || c == '\n' || c == '\r' || c == '\u{b}' || c == '\u{c}'
}

pub open spec fn trim_start_rec(s: Seq<char>) -> Seq<char>
    decreases s.len(),
{
    if s.len() > 0 && is_space(s[0]) {
        trim_start_rec(s.drop_first())
    } else {
        s
    }
}

pub open spec fn trim_end_rec(s: Seq<char>) -> Seq<char>
    decreases s.len(),
{
    if s.len() > 0 && is_space(s.last()) {
        trim_end_rec(s.drop_last())
    } else {
        s
    }
}

/// A line with leading and trailing ASCII whitespace removed.
pub open spec fn trim_spec(s: Seq<char>) -> Seq<char> {
    trim_end_rec(trim_start_rec(s))
}

/// The pieces of `s` cut at every occurrence of `sep`; always at least one
/// piece, and no piece contains `sep`.
pub open spec fn split_chars(s: Seq<char>, sep: char) -> Seq<Seq<char>>
    decreases s.len(),
{
    if s.len() == 0 {
        seq![Seq::<char>::empty()]
    } else if s[0] == sep {
        seq![Seq::<char>::empty()] + split_chars(s.drop_first(), sep)
    } else {
        let rest = split_chars(s.drop_first(), sep);
        seq![seq![s[0]] + rest[0]] + rest.drop_first()
    }
}

/// The fields joined into one line, with `sep` between consecutive fields.
pub open spec fn join_fields(fields: Seq<Seq<char>>, sep: char) -> Seq<char>
    decreases fields.len(),
{
    if fields.len() == 0 {
        Seq::<char>::empty()
    } else if fields.len() == 1 {
        fields[0]
    } else {
        join_fields(fields.drop_last(), sep) + seq![sep] + fields.last()
    }
}

pub open spec fn is_digit(c: char) -> bool {
    48 <= c as int && c as int <= 57
}

pub open spec fn all_digits(s: Seq<char>) -> bool {
    forall|j: int| 0 <= j < s.len() ==> is_digit(#[trigger] s[j])
}

/// The value of a string of decimal digits, most significant first.
pub open spec fn digits_val(s: Seq<char>) -> int
    decreases s.len(),
{
    if s.len() == 0 {
        0
    } else {
        digits_val(s.drop_last()) * 10 + (s.last() as int - 48)
    }
}

/// A piece that denotes a positive column index: one or more decimal digits,
/// value at least 1, and small enough for the machine.
pub open spec fn is_pos_index(s: Seq<char>) -> bool {
    &&& s.len() > 0
    &&& all_digits(s)
    &&& 1 <= digits_val(s)
    &&& digits_val(s) <= usize::MAX as int
}

pub proof fn lemma_split_min_len(s: Seq<char>, sep: char)
    ensures
        split_chars(s, sep).len() >= 1,
    decreases s.len(),
{
    if s.len() == 0 {
    } else if s[0] == sep {
    } else {
        lemma_split_min_len(s.drop_first(), sep);
    }
}

/// Splitting a separator-free string yields that string as the one piece.
pub proof fn lemma_split_no_sep(s: Seq<char>, sep: char)
    requires
        forall|j: int| 0 <= j < s.len() ==> s[j] != sep,
    ensures
        split_chars(s, sep) == seq![s],
    decreases s.len(),
{
    if s.len() == 0 {
        assert(s =~= Seq::<char>::empty());
        assert(split_chars(s, sep) =~= seq![s]);
    } else {
        lemma_split_no_sep(s.drop_first(), sep);
        let rest = split_chars(s.drop_first(), sep);
        assert(rest == seq![s.drop_first()]);
        assert(rest.drop_first() =~= Seq::<Seq<char>>::empty());
        assert(seq![s[0]] + rest[0] =~= s);
        assert(split_chars(s, sep) =~= seq![s]);
    }
}

/// Splitting `piece sep rest`, with `piece` separator-free, cuts off `piece`
/// as the first element and splits the remainder.
pub proof fn lemma_split_first_piece(piece: Seq<char>, rest: Seq<char>, sep: char)
    requires
        forall|j: int| 0 <= j < piece.len() ==> piece[j] != sep,
    ensures
        split_chars(piece + seq![sep] + rest, sep) == seq![piece] + split_chars(rest, sep),
    decreases piece.len(),
{
    let s = piece + seq![sep] + rest;
    if piece.len() == 0 {
        assert(s[0] == sep);
        assert(s.drop_first() =~= rest);
        assert(piece =~= Seq::<char>::empty());
        assert(split_chars(s, sep) =~= seq![piece] + split_chars(rest, sep));
    } else {
        assert(s[0] == piece[0]);
        assert(s[0] != sep);
        assert(s.drop_first() =~= piece.drop_first() + seq![sep] + rest);
        lemma_split_first_piece(piece.drop_first(), rest, sep);
        let r2 = split_chars(s.drop_first(), sep);
        assert(r2 == seq![piece.drop_first()] + split_chars(rest, sep));
        assert(r2[0] == piece.drop_first());
        assert(seq![s[0]] + r2[0] =~= piece);
        assert(r2.drop_first() =~= split_chars(rest, sep));
        assert(split_chars(s, sep) =~= seq![piece] + split_chars(rest, sep));
    }
}

/// Appending one field to a join adds one separator and the field.
pub proof fn lemma_join_push(fields: Seq<Seq<char>>, x: Seq<char>, sep: char)
    ensures
        join_fields(fields.push(x), sep) == if fields.len() == 0 {
            x
        } else {
            join_fields(fields, sep) + seq![sep] + x
        },
{
    let p = fields.push(x);
    if fields.len() == 0 {
        assert(p.len() == 1);
        assert(p[0] == x);
    } else {
        assert(p.len() >= 2);
        assert(p.drop_last() =~= fields);
        assert(p.last() == x);
    }
}

proof fn lemma_trim_start_skip(s: Seq<char>, k: int)
    requires
        0 <= k <= s.len(),
        forall|j: int| 0 <= j < k ==> is_space(#[trigger] s[j]),
    ensures
        trim_start_rec(s) == trim_start_rec(s.skip(k)),
    decreases k,
{
    if k == 0 {
        assert(s.skip(0) =~= s);
    } else {
        assert(is_space(s[0]));
        assert(s.drop_first() =~= s.skip(1));
        lemma_trim_start_skip(s.skip(1), k - 1);
        assert(s.skip(1).skip(k - 1) =~= s.skip(k));
    }
}

proof fn lemma_trim_end_take(s: Seq<char>, k: int)
    requires
        0 <= k <= s.len(),
        forall|j: int| k <= j < s.len() ==> is_space(#[trigger] s[j]),
    ensures
        trim_end_rec(s) == trim_end_rec(s.take(k)),
    decreases s.len() - k,
{
    if k == s.len() {
        assert(s.take(k) =~= s);
    } else {
        assert(is_space(s.last()));
        assert(s.drop_last() =~= s.take(s.len() - 1));
        lemma_trim_end_take(s.take(s.len() - 1), k);
        assert(s.take(s.len() - 1).take(k) =~= s.take(k));
    }
}

fn is_space_char(c: char) -> (r: bool)
    ensures
        r == is_space(c),
{
    c == ' ' || c == '\t' || c == '\n' || c == '\r' || c == '\u{b}' || c == '\u{c}'
}

/// Strip leading and trailing ASCII whitespace from a line.
pub fn trim(s: &str) -> (r: &str)
    ensures
        r@ == trim_spec(s@),
{
    let n = s.unicode_len();
    let mut lo: usize = 0;
    while lo < n && is_space_char(s.get_char(lo))
        invariant
            0 <= lo <= n,
            n as nat == s@.len(),
            forall|j: int| 0 <= j < lo ==> is_space(#[trigger] s@[j]),
        decreases n - lo,
    {
        lo = lo + 1;
    }
    proof {
        lemma_trim_start_skip(s@, lo as int);
        if lo < n {
            assert(s@.skip(lo as int)[0] == s@[lo as int]);
            assert(!is_space(s@.skip(lo as int)[0]));
        } else {
            assert(s@.skip(lo as int).len() == 0);
        }
        assert(trim_start_rec(s@.skip(lo as int)) == s@.skip(lo as int));
    }
    let mut hi: usize = n;
    while hi > lo && is_space_char(s.get_char(hi - 1))
        invariant
            lo <= hi <= n,
            n as nat == s@.len(),
            forall|j: int| hi <= j < n ==> is_space(#[trigger] s@[j]),
        decreases hi,
    {
        hi = hi - 1;
    }
    let ghost t = s@.skip(lo as int);
    proof {
        assert(forall|j: int|
            hi - lo <= j < t.len() ==> is_space(#[trigger] t[j]) && t[j] == s@[j + lo]);
        lemma_trim_end_take(t, hi - lo);
        if hi > lo {
            assert(t.take(hi - lo).last() == s@[hi - 1]);
            assert(!is_space(t.take(hi - lo).last()));
        } else {
            assert(t.take(hi - lo).len() == 0);
        }
        assert(trim_end_rec(t.take(hi - lo)) == t.take(hi - lo));
        assert(t.take(hi - lo) =~= s@.subrange(lo as int, hi as int));
    }
    s.substring_char(lo, hi)
}

/// Cut a string into owned pieces at every occurrence of `sep`.
pub fn split_str(s: &str, sep: char) -> (r: Vec<String>)
    ensures
        r.deep_view() == split_chars(s@, sep),
        r.len() >= 1,
{
    let n = s.unicode_len();
    let mut r: Vec<String> = Vec::new();
    let mut start: usize = 0;
    let mut i: usize = 0;
    proof {
        assert(s@.skip(0) =~= s@);
        assert(r.deep_view() =~= Seq::<Seq<char>>::empty());
    }
    while i < n
        invariant
            0 <= start <= i <= n,
            n as nat == s@.len(),
            forall|j: int| start <= j < i ==> s@[j] != sep,
            split_chars(s@, sep) == r.deep_view() + split_chars(s@.skip(start as int), sep),
        decreases n - i,
    {
        if s.get_char(i) == sep {
            let piece = s.substring_char(start, i);
            let ghost r_old = r.deep_view();
            r.push(piece.to_owned());
            proof {
                assert(s@.skip(start as int) =~= piece@ + seq![sep] + s@.skip(i + 1));
                lemma_split_first_piece(piece@, s@.skip(i + 1), sep);
                assert(r.deep_view() =~= r_old.push(piece@));
                assert(r_old.push(piece@) =~= r_old + seq![piece@]);
                assert(r_old + seq![piece@] + split_chars(s@.skip(i + 1), sep) =~= r_old + (seq![
                    piece@,
                ] + split_chars(s@.skip(i + 1), sep)));
                assert(split_chars(s@, sep) == r.deep_view() + split_chars(s@.skip(i + 1), sep));
            }
            start = i + 1;
        }
        i = i + 1;
    }
    let piece = s.substring_char(start, n);
    let ghost r_old = r.deep_view();
    r.push(piece.to_owned());
    proof {
        assert(piece@ =~= s@.skip(start as int));
        lemma_split_no_sep(s@.skip(start as int), sep);
        assert(r.deep_view() =~= r_old.push(piece@));
        assert(r_old.push(piece@) =~= r_old + seq![s@.skip(start as int)]);
        assert(split_chars(s@, sep) == r.deep_view());
    }
    r
}

/// Join fields into one comma-separated line.
pub fn join_comma(fields: &Vec<String>) -> (r: String)
    ensures
        r@ == join_fields(fields.deep_view(), ','),
{
    let mut out = String::new();
    let mut i: usize = 0;
    proof {
        assert(fields.deep_view().take(0) =~= Seq::<Seq<char>>::empty());
    }
    while i < fields.len()
        invariant
            0 <= i <= fields.len(),
            fields.deep_view().len() == fields.len(),
            out@ == join_fields(fields.deep_view().take(i as int), ','),
        decreases fields.len() - i,
    {
        let ghost dv = fields.deep_view();
        if i > 0 {
            proof {
                reveal_strlit(",");
            }
            out.append(",");
            proof {
                assert(","@ =~= seq![',']);
            }
        }
        out.append(fields[i].as_str());
        proof {
            assert(dv[i as int] == fields@[i as int]@);
            lemma_join_push(dv.take(i as int), dv[i as int], ',');
            assert(dv.take(i as int).push(dv[i as int]) =~= dv.take(i + 1));
            if i == 0 {
                assert(out@ =~= dv[0]);
                assert(out@ == join_fields(dv.take(1), ','));
            } else {
                assert(out@ =~= join_fields(dv.take(i as int), ',') + seq![','] + dv[i as int]);
            }
        }
        i = i + 1;
    }
    proof {
        assert(fields.deep_view().take(fields.len() as int) =~= fields.deep_view());
    }
    out
}

proof fn lemma_digits_val_nonneg(s: Seq<char>)
    requires
        all_digits(s),
    ensures
        digits_val(s) >= 0,
    decreases s.len(),
{
    if s.len() > 0 {
        assert(all_digits(s.drop_last())) by {
            assert(forall|j: int|
                0 <= j < s.len() - 1 ==> #[trigger] s.drop_last()[j] == s[j]);
        }
        lemma_digits_val_nonneg(s.drop_last());
    }
}

/// Reading more digits never shrinks the value.
proof fn lemma_digits_val_mono(s: Seq<char>, i: int, j: int)
    requires
        0 <= i <= j <= s.len(),
        forall|k: int| 0 <= k < j ==> is_digit(#[trigger] s[k]),
    ensures
        0 <= digits_val(s.take(i)) <= digits_val(s.take(j)),
    decreases j - i,
{
    assert(all_digits(s.take(i))) by {
        assert(forall|k: int| 0 <= k < i ==> #[trigger] s.take(i)[k] == s[k]);
    }
    lemma_digits_val_nonneg(s.take(i));
    if i < j {
        lemma_digits_val_mono(s, i, j - 1);
        assert(s.take(j).drop_last() =~= s.take(j - 1));
        assert(s.take(j).last() == s[j - 1]);
        assert(digits_val(s.take(j)) == digits_val(s.take(j - 1)) * 10 + (s[j - 1] as int - 48));
        assert(digits_val(s.take(j - 1)) * 10 >= digits_val(s.take(j - 1)));
    }
}

/// Read a piece as a positive column index: one or more decimal digits whose
/// value is at least 1 and fits the machine.
pub fn parse_pos_index(s: &str) -> (r: Option<usize>)
    ensures
        r is Some <==> is_pos_index(s@),
        r matches Some(v) ==> v as int == digits_val(s@),
{
    let n = s.unicode_len();
    if n == 0 {
        return None;
    }
    let mut val: usize = 0;
    let mut i: usize = 0;
    proof {
        assert(s@.take(0) =~= Seq::<char>::empty());
    }
    while i < n
        invariant
            0 <= i <= n,
            n as nat == s@.len(),
            forall|k: int| 0 <= k < i ==> is_digit(#[trigger] s@[k]),
            val as int == digits_val(s@.take(i as int)),
        decreases n - i,
    {
        let c = s.get_char(i);
        let d = c as u32;
        if d < 48 || d > 57 {
            proof {
                assert(!is_digit(s@[i as int]));
                assert(!all_digits(s@));
            }
            return None;
        }
        let dd = (d - 48) as usize;
        proof {
            assert(s@.take(i + 1).drop_last() =~= s@.take(i as int));
            assert(s@.take(i + 1).last() == s@[i as int]);
            assert(digits_val(s@.take(i + 1)) == val as int * 10 + dd as int);
        }
        if val > usize::MAX / 10 {
            proof {
                assert(val as int * 10 > usize::MAX as int) by {
                    assert(val as int >= usize::MAX as int / 10 + 1);
                    assert((usize::MAX as int / 10 + 1) * 10 > usize::MAX as int);
                }
                assert(digits_val(s@.take(i + 1)) > usize::MAX as int);
                if all_digits(s@) {
                    lemma_digits_val_mono(s@, i + 1, n as int);
                    assert(s@.take(n as int) =~= s@);
                    assert(digits_val(s@) > usize::MAX as int);
                }
            }
            return None;
        }
        let val10 = val * 10;
        if dd > usize::MAX - val10 {
            proof {
                assert(digits_val(s@.take(i + 1)) > usize::MAX as int);
                if all_digits(s@) {
                    lemma_digits_val_mono(s@, i + 1, n as int);
                    assert(s@.take(n as int) =~= s@);
                    assert(digits_val(s@) > usize::MAX as int);
                }
            }
            return None;
        }
        val = val10 + dd;
        i = i + 1;
    }
    proof {
        assert(s@.take(n as int) =~= s@);
        assert(val as int == digits_val(s@));
    }
    if val == 0 {
        return None;
    }
    Some(val)
}

} // verus!
