//! Dot-separated paths: splitting a path string into its segments, and
//! reading and writing the base-10 indices used to address elements of a
//! sequence of nodes.

use vstd::prelude::*;
use vstd::string::StrSliceExecFns;

verus! {

/// The position of the first occurrence of `c` in `s`, if any.
pub open spec fn find_char(s: Seq<char>, c: char) -> Option<int>
    decreases s.len(),
{
    if s.len() == 0 {
        None
    } else if s[0] == c {
        Some(0)
    } else {
        match find_char(s.drop_first(), c) {
            Some(i) => Some(i + 1),
            None => None,
        }
    }
}

pub proof fn lemma_find_char(s: Seq<char>, c: char)
    ensures
        match find_char(s, c) {
            Some(i) => 0 <= i < s.len() && s[i] == c && (forall|j: int| 0 <= j < i ==> s[j] != c),
            None => forall|j: int| 0 <= j < s.len() ==> s[j] != c,
        },
    decreases s.len(),
{
    if s.len() > 0 && s[0] != c {
        lemma_find_char(s.drop_first(), c);
        assert forall|j: int| 1 <= j < s.len() implies s[j] == s.drop_first()[j - 1] by {}
    }
}

/// The segments of a dot-separated path. Every path has at least one
/// segment; segments may be empty strings.
pub open spec fn split_path(s: Seq<char>) -> Seq<Seq<char>>
    decreases s.len(),
{
    match find_char(s, '.') {
        None => seq![s],
        Some(i) => {
            if 0 <= i < s.len() {
                seq![s.take(i)] + split_path(s.skip(i + 1))
            } else {
                seq![s]
            }
        },
    }
}

/// The value of a digit character, counted from `'0'`.
pub open spec fn digit_val(c: char) -> int {
    c as int - '0' as int
}

/// Whether `s` is a non-empty string of base-10 digits.
pub open spec fn is_digits(s: Seq<char>) -> bool {
    s.len() > 0 && forall|j: int| 0 <= j < s.len() ==> '0' <= #[trigger] s[j] <= '9'
}

/// The base-10 value of a string of digits.
pub open spec fn digits_value(s: Seq<char>) -> int
    decreases s.len(),
{
    if s.len() == 0 {
        0
    } else {
        digits_value(s.drop_last()) * 10 + digit_val(s.last())
    }
}

/// The index denoted by a path segment: the base-10 value of a segment that
/// is all digits, and nothing otherwise.
pub open spec fn index_of_segment(s: Seq<char>) -> Option<int> {
    if is_digits(s) {
        Some(digits_value(s))
    } else {
        None
    }
}

pub proof fn lemma_digits_value_bounds(s: Seq<char>)
    requires
        forall|j: int| 0 <= j < s.len() ==> '0' <= #[trigger] s[j] <= '9',
    ensures
        digits_value(s) >= 0,
    decreases s.len(),
{
    if s.len() > 0 {
        lemma_digits_value_bounds(s.drop_last());
    }
}

/// Extending a digit string on the right can only increase its value.
pub proof fn lemma_digits_value_take(s: Seq<char>, j: int)
    requires
        forall|k: int| 0 <= k < s.len() ==> '0' <= #[trigger] s[k] <= '9',
        0 <= j <= s.len(),
    ensures
        digits_value(s.take(j)) <= digits_value(s),
    decreases s.len() - j,
{
    if j < s.len() {
        lemma_digits_value_take(s, j + 1);
        assert(s.take(j + 1).drop_last() =~= s.take(j));
        assert(s.take(j + 1).last() == s[j]);
        lemma_digits_value_bounds(s.take(j));
        assert(digits_value(s.take(j)) * 10 >= digits_value(s.take(j)));
    } else {
        assert(s.take(j) =~= s);
    }
}

/// The canonical base-10 rendering of a non-negative number.
pub open spec fn dec_str(n: int) -> Seq<char>
    decreases n,
{
    if n < 0 {
        Seq::empty()
    } else if n < 10 {
        seq![digit_char(n)]
    } else {
        dec_str(n / 10).push(digit_char(n % 10))
    }
}

/// The digit character for a value between 0 and 9.
pub open spec fn digit_char(d: int) -> char {
    if d == 0 { '0' }
    else if d == 1 { '1' }
    else if d == 2 { '2' }
    else if d == 3 { '3' }
    else if d == 4 { '4' }
    else if d == 5 { '5' }
    else if d == 6 { '6' }
    else if d == 7 { '7' }
    else if d == 8 { '8' }
    else if d == 9 { '9' }
    else { ' ' }
}

/// Rendering a number and reading the result back yields the number: the
/// canonical rendering is all digits and denotes the rendered value.
pub proof fn lemma_dec_str_value(n: int)
    requires
        n >= 0,
    ensures
        is_digits(dec_str(n)),
        digits_value(dec_str(n)) == n,
        index_of_segment(dec_str(n)) == Some(n),
    decreases n,
{
    if n < 10 {
        let s = seq![digit_char(n)];
        assert(dec_str(n) == s);
        assert(s.len() == 1);
        assert(s.drop_last() =~= Seq::<char>::empty());
        assert(digits_value(Seq::<char>::empty()) == 0);
        assert(s.last() == digit_char(n));
        assert(digits_value(s) == digits_value(s.drop_last()) * 10 + digit_val(s.last()));
        assert(digit_val(digit_char(n)) == n);
    } else {
        lemma_dec_str_value(n / 10);
        assert(dec_str(n) =~= dec_str(n / 10).push(digit_char(n % 10)));
        assert(dec_str(n).drop_last() =~= dec_str(n / 10));
        assert(dec_str(n).last() == digit_char(n % 10));
        assert(0 <= n % 10 < 10);
        assert(digit_val(digit_char(n % 10)) == n % 10);
        assert(digits_value(dec_str(n)) == (n / 10) * 10 + n % 10);
        assert((n / 10) * 10 + n % 10 == n) by (nonlinear_arith);
        assert forall|j: int| 0 <= j < dec_str(n).len() implies '0' <= #[trigger] dec_str(n)[j] <= '9' by {
            if j < dec_str(n).len() - 1 {
                assert(dec_str(n)[j] == dec_str(n / 10)[j]);
            }
        }
    }
}

/// The position of the first `'.'` in `s`, if any.
pub fn find_dot(s: &str) -> (r: Option<usize>)
    ensures
        match r {
            Some(i) => find_char(s@, '.') == Some(i as int),
            None => find_char(s@, '.') is None,
        },
{
    let n = s.unicode_len();
    let mut i: usize = 0;
    while i < n
        invariant
            n == s@.len(),
            0 <= i <= n,
            forall|j: int| 0 <= j < i ==> s@[j] != '.',
        decreases n - i,
    {
        if s.get_char(i) == '.' {
            proof {
                lemma_find_char(s@, '.');
            }
            return Some(i);
        }
        i += 1;
    }
    proof {
        lemma_find_char(s@, '.');
    }
    None
}

/// Split a path into its dot-separated segments.
pub fn split_segments(s: &str) -> (r: Vec<String>)
    ensures
        r.deep_view() == split_path(s@),
        r.len() >= 1,
    decreases s@.len(),
{
    match find_dot(s) {
        None => {
            let mut r: Vec<String> = Vec::new();
            r.push(s.to_owned());
            proof {
                assert(r.deep_view() =~= split_path(s@));
            }
            r
        },
        Some(i) => {
            let n = s.unicode_len();
            proof {
                lemma_find_char(s@, '.');
            }
            let head = s.substring_char(0, i).to_owned();
            let rest = s.substring_char(i + 1, n);
            let mut r = split_segments(rest);
            r.insert(0, head);
            proof {
                assert(head@ =~= s@.take(i as int));
                assert(rest@ =~= s@.skip(i + 1));
                assert(r.deep_view() =~= seq![s@.take(i as int)] + split_path(s@.skip(i + 1)));
            }
            r
        },
    }
}

/// Read a path segment as a base-10 index, accepting only an index below
/// `bound`: an out-of-range index is treated the same as a segment that is
/// not an index at all.
pub fn parse_index_below(seg: &String, bound: usize) -> (r: Option<usize>)
    ensures
        match r {
            Some(i) => index_of_segment(seg@) == Some(i as int) && i < bound,
            None => match index_of_segment(seg@) {
                Some(v) => v >= bound,
                None => true,
            },
        },
{
    let s = seg.as_str();
    let n = s.unicode_len();
    if n == 0 {
        return None;
    }
    if bound == 0 {
        proof {
            if is_digits(s@) {
                lemma_digits_value_bounds(s@);
            }
        }
        return None;
    }
    let mut acc: u128 = 0;
    let mut i: usize = 0;
    while i < n
        invariant
            s@ == seg@,
            n == s@.len(),
            0 < n,
            0 <= i <= n,
            forall|j: int| 0 <= j < i ==> '0' <= #[trigger] s@[j] <= '9',
            acc == digits_value(s@.take(i as int)),
            acc < bound,
        decreases n - i,
    {
        let c = s.get_char(i);
        if c < '0' || c > '9' {
            proof {
                assert(!('0' <= s@[i as int] <= '9'));
                assert(!is_digits(s@));
                assert(s@ == seg@);
            }
            return None;
        }
        let d: u128 = (c as u32 - 48) as u128;
        proof {
            assert(digit_val(s@[i as int]) == d);
            assert(s@.take(i + 1).drop_last() =~= s@.take(i as int));
            assert(s@.take(i + 1).last() == s@[i as int]);
        }
        let next: u128 = acc * 10 + d;
        if next >= bound as u128 {
            proof {
                assert(next == digits_value(s@.take(i + 1)));
                if is_digits(s@) {
                    lemma_digits_value_take(s@, i + 1);
                    assert(digits_value(s@) >= next);
                }
                assert(s@ == seg@);
            }
            return None;
        }
        acc = next;
        i += 1;
    }
    proof {
        assert(s@.take(n as int) =~= s@);
    }
    Some(acc as usize)
}

/// Render an index as its canonical base-10 segment.
pub fn index_segment(n: usize) -> (r: String)
    ensures
        r@ == dec_str(n as int),
    decreases n,
{
    let d: usize = n % 10;
    let c: &str = digit_string(d);
    if n < 10 {
        let mut r = String::new();
        r.append(c);
        proof {
            assert(r@ =~= dec_str(n as int));
        }
        r
    } else {
        let mut r = index_segment(n / 10);
        r.append(c);
        proof {
            assert(r@ =~= dec_str(n as int));
        }
        r
    }
}

/// The digit character, as a one-character string, for a value between 0
/// and 9.
fn digit_string(d: usize) -> (c: &'static str)
    requires
        d < 10,
    ensures
        c@ == seq![digit_char(d as int)],
{
    proof {
        reveal_strlit("0");
        reveal_strlit("1");
        reveal_strlit("2");
        reveal_strlit("3");
        reveal_strlit("4");
        reveal_strlit("5");
        reveal_strlit("6");
        reveal_strlit("7");
        reveal_strlit("8");
        reveal_strlit("9");
    }
    let r: &str = if d == 0 { "0" }
    else if d == 1 { "1" }
    else if d == 2 { "2" }
    else if d == 3 { "3" }
    else if d == 4 { "4" }
    else if d == 5 { "5" }
    else if d == 6 { "6" }
    else if d == 7 { "7" }
    else if d == 8 { "8" }
    else { "9" };
    proof {
        assert(r@ =~= seq![digit_char(d as int)]);
    }
    r
}

} // verus!
