//! Validation of one raw line into an optional `(name, value)` entry.
//!
//! A line yields an entry exactly when
//! - some substring of it matches `[A-Za-z_][A-Za-z0-9_]*=[A-Za-z0-9_-]+`,
//! - splitting the whole line on `=` yields exactly two segments, and
//! - both segments are non-empty.
//!
//! The two segments are returned verbatim, with no trimming. A line that
//! fails any of the checks yields no entry; that is never an error.

use vstd::prelude::*;

verus! {

/// First character of a name: a letter or an underscore.
pub open spec fn is_name_start_char(c: char) -> bool {
    ||| 97 <= c as u32 <= 122
    ||| 65 <= c as u32 <= 90
    ||| c as u32 == 95
}

/// Later character of a name: a letter, a digit or an underscore.
pub open spec fn is_name_char(c: char) -> bool {
    ||| is_name_start_char(c)
    ||| 48 <= c as u32 <= 57
}

/// Character of a value: a letter, a digit, an underscore or a hyphen.
pub open spec fn is_value_char(c: char) -> bool {
    ||| is_name_char(c)
    ||| c as u32 == 45
}

fn name_start_char(c: char) -> (b: bool)
    ensures
        b == is_name_start_char(c),
{
    let u = c as u32;
    (97 <= u && u <= 122) || (65 <= u && u <= 90) || u == 95
}

fn name_char(c: char) -> (b: bool)
    ensures
        b == is_name_char(c),
{
    let u = c as u32;
    name_start_char(c) || (48 <= u && u <= 57)
}

fn value_char(c: char) -> (b: bool)
    ensures
        b == is_value_char(c),
{
    name_char(c) || c as u32 == 45
}

/// A run of name characters ends just before `q`: some position `p` before
/// `q` holds a name-start character, and everything strictly between `p`
/// and `q` is a name character.
pub open spec fn name_before(s: Seq<char>, q: int) -> bool {
    exists|p: int|
        0 <= p < q && is_name_start_char(#[trigger] s[p]) && (forall|j: int|
            p < j < q ==> is_name_char(#[trigger] s[j]))
}

/// The pattern `[A-Za-z_][A-Za-z0-9_]*=[A-Za-z0-9_-]+` matches `s` with its
/// `=` standing at position `q`.
pub open spec fn entry_match_at(s: Seq<char>, q: int) -> bool {
    &&& 0 <= q
    &&& q + 1 < s.len()
    &&& s[q] == '='
    &&& is_value_char(s[q + 1])
    &&& name_before(s, q)
}

/// The pattern `[A-Za-z_][A-Za-z0-9_]*=[A-Za-z0-9_-]+` matches somewhere in
/// `s` (a search anywhere in the line, not a full-line anchor).
pub open spec fn line_matches(s: Seq<char>) -> bool {
    exists|q: int| entry_match_at(s, q)
}

/// Scans backwards from `q` for a name run ending just before `q`.
fn name_run_before(s: &str, q: usize) -> (b: bool)
    requires
        q < s@.len(),
    ensures
        b == name_before(s@, q as int),
{
    let mut p = q;
    while p > 0
        invariant
            p <= q < s@.len(),
            forall|j: int| p <= j < q ==> is_name_char(#[trigger] s@[j]),
            forall|j: int| p <= j < q ==> !is_name_start_char(#[trigger] s@[j]),
        decreases p,
    {
        let c = s.get_char(p - 1);
        if name_start_char(c) {
            assert(name_before(s@, q as int)) by {
                assert(is_name_start_char(s@[p - 1]));
            }
            return true;
        }
        if !name_char(c) {
            assert(!name_before(s@, q as int)) by {
                assert forall|pp: int|
                    0 <= pp < q && is_name_start_char(s@[pp]) implies !(forall|j: int|
                    pp < j < q ==> is_name_char(#[trigger] s@[j])) by {
                    assert(p - 1 <= pp < q ==> !is_name_start_char(s@[pp]));
                    assert(pp < p - 1 ==> !is_name_char(s@[p - 1]));
                }
            }
            return false;
        }
        p = p - 1;
    }
    assert(!name_before(s@, q as int)) by {
        assert forall|pp: int| 0 <= pp < q implies !is_name_start_char(s@[pp]) by {}
    }
    false
}

/// Searches `s` for a substring matching `[A-Za-z_][A-Za-z0-9_]*=[A-Za-z0-9_-]+`.
pub fn has_entry_match(s: &str) -> (b: bool)
    ensures
        b == line_matches(s@),
{
    let n = s.unicode_len();
    let mut q: usize = 0;
    while q < n
        invariant
            n == s@.len(),
            q <= n,
            forall|qq: int| 0 <= qq < q ==> !entry_match_at(s@, qq),
        decreases n - q,
    {
        if s.get_char(q) == '=' && q + 1 < n && value_char(s.get_char(q + 1)) {
            if name_run_before(s, q) {
                assert(entry_match_at(s@, q as int));
                return true;
            }
        }
        q = q + 1;
    }
    assert forall|qq: int| !entry_match_at(s@, qq) by {
        if 0 <= qq < n {
            assert(!entry_match_at(s@, qq));
        }
    }
    false
}

/// How many `=` characters `s` holds. Splitting `s` on `=` yields exactly
/// two segments when this is 1.
pub open spec fn count_eq(s: Seq<char>) -> nat
    decreases s.len(),
{
    if s.len() == 0 {
        0
    } else {
        count_eq(s.drop_last()) + (if s.last() == '=' {
            1nat
        } else {
            0nat
        })
    }
}

proof fn lemma_count_eq_take_step(s: Seq<char>, i: int)
    requires
        0 <= i < s.len(),
    ensures
        count_eq(s.take(i + 1)) == count_eq(s.take(i)) + (if s[i] == '=' {
            1nat
        } else {
            0nat
        }),
{
    assert(s.take(i + 1).drop_last() =~= s.take(i));
    assert(s.take(i + 1).last() == s[i]);
}

proof fn lemma_count_eq_take_monotone(s: Seq<char>, a: int, b: int)
    requires
        0 <= a <= b <= s.len(),
    ensures
        count_eq(s.take(a)) <= count_eq(s.take(b)),
    decreases b - a,
{
    if a < b {
        lemma_count_eq_take_monotone(s, a, b - 1);
        lemma_count_eq_take_step(s, b - 1);
    }
}

/// Two distinct `=` positions force a count of at least two.
pub proof fn lemma_two_eq_positions(s: Seq<char>, i: int, j: int)
    requires
        0 <= i < j < s.len(),
        s[i] == '=',
        s[j] == '=',
    ensures
        count_eq(s) >= 2,
{
    lemma_count_eq_take_step(s, i);
    lemma_count_eq_take_monotone(s, i + 1, j);
    lemma_count_eq_take_step(s, j);
    lemma_count_eq_take_monotone(s, j + 1, s.len() as int);
    assert(s.take(s.len() as int) =~= s);
}

/// A sequence without `=` characters has a count of zero.
pub proof fn lemma_count_eq_zero(s: Seq<char>)
    requires
        forall|j: int| 0 <= j < s.len() ==> s[j] != '=',
    ensures
        count_eq(s) == 0,
    decreases s.len(),
{
    if s.len() > 0 {
        lemma_count_eq_zero(s.drop_last());
    }
}

/// The count distributes over concatenation.
pub proof fn lemma_count_eq_concat(a: Seq<char>, b: Seq<char>)
    ensures
        count_eq(a + b) == count_eq(a) + count_eq(b),
    decreases b.len(),
{
    if b.len() == 0 {
        assert(a + b =~= a);
    } else {
        lemma_count_eq_concat(a, b.drop_last());
        assert((a + b).drop_last() =~= a + b.drop_last());
        assert((a + b).last() == b.last());
    }
}

/// What one raw line yields: the entry, or nothing.
///
/// The line must contain a match of `[A-Za-z_][A-Za-z0-9_]*=[A-Za-z0-9_-]+`
/// somewhere, split into exactly two segments on `=`, and both segments
/// must be non-empty; the segments are then the name and the value, taken
/// verbatim.
pub open spec fn spec_parse_entry(s: Seq<char>) -> Option<(Seq<char>, Seq<char>)> {
    if line_matches(s) && count_eq(s) == 1 {
        let q = choose|q: int| 0 <= q < s.len() && s[q] == '=';
        if q == 0 || q == s.len() - 1 {
            None
        } else {
            Some((s.take(q), s.skip(q + 1)))
        }
    } else {
        None
    }
}

/// Parses one raw line into an optional `(name, value)` entry.
///
/// Yields an entry exactly when the line contains a match of
/// `[A-Za-z_][A-Za-z0-9_]*=[A-Za-z0-9_-]+`, holds exactly one `=`, and both
/// the part before and the part after that `=` are non-empty. A line that
/// fails any check yields `None`; no error is ever raised.
pub fn string_to_env_entry(entry: &str) -> (r: Option<(String, String)>)
    ensures
        match r {
            Some(kv) => spec_parse_entry(entry@) == Some((kv.0@, kv.1@)),
            None => spec_parse_entry(entry@) is None,
        },
{
    if !has_entry_match(entry) {
        return None;
    }
    let n = entry.unicode_len();
    let mut count: usize = 0;
    let mut first: usize = 0;
    let mut i: usize = 0;
    while i < n
        invariant
            n == entry@.len(),
            i <= n,
            count <= i,
            count == count_eq(entry@.take(i as int)),
            count > 0 ==> first < i && entry@[first as int] == '=',
            count == 0 ==> forall|j: int| 0 <= j < i ==> entry@[j] != '=',
        decreases n - i,
    {
        proof {
            lemma_count_eq_take_step(entry@, i as int);
        }
        if entry.get_char(i) == '=' {
            if count == 0 {
                first = i;
            }
            count = count + 1;
        }
        i = i + 1;
    }
    proof {
        assert(entry@.take(n as int) =~= entry@);
    }
    if count != 1 {
        return None;
    }
    let ghost q = choose|q: int| 0 <= q < entry@.len() && entry@[q] == '=';
    proof {
        assert(entry@[first as int] == '=');
        if q != first {
            if q < first {
                lemma_two_eq_positions(entry@, q, first as int);
            } else {
                lemma_two_eq_positions(entry@, first as int, q);
            }
        }
    }
    if first == 0 || first == n - 1 {
        return None;
    }
    let key = entry.substring_char(0, first).to_owned();
    let value = entry.substring_char(first + 1, n).to_owned();
    proof {
        assert(entry@.take(q) =~= entry@.subrange(0, first as int));
        assert(entry@.skip(q + 1) =~= entry@.subrange(first as int + 1, n as int));
    }
    Some((key, value))
}

/// A line of the form `NAME=VALUE`, with `NAME` matching
/// `[A-Za-z_][A-Za-z0-9_]*`, `VALUE` matching `[A-Za-z0-9_-]+` and both
/// non-empty, parses to exactly the pair `(NAME, VALUE)`.
pub proof fn lemma_valid_line_parses(name: Seq<char>, value: Seq<char>)
    requires
        name.len() > 0,
        value.len() > 0,
        is_name_start_char(name[0]),
        forall|j: int| 0 < j < name.len() ==> is_name_char(#[trigger] name[j]),
        forall|j: int| 0 <= j < value.len() ==> is_value_char(#[trigger] value[j]),
    ensures
        spec_parse_entry(name + seq!['='] + value) == Some((name, value)),
{
    let s = name + seq!['='] + value;
    let nl = name.len() as int;
    assert(s[nl] == '=');
    assert forall|j: int| 0 <= j < s.len() && j != nl implies s[j] != '=' by {
        if j < nl {
            assert(s[j] == name[j]);
            assert(is_name_start_char(name[0]) ==> name[0] as u32 != 61);
        } else {
            assert(s[j] == value[j - nl - 1]);
        }
    }
    lemma_count_eq_concat(name + seq!['='], value);
    lemma_count_eq_concat(name, seq!['=']);
    lemma_count_eq_zero(name);
    lemma_count_eq_zero(value);
    assert(count_eq(seq!['=']) == 1) by {
        assert(seq!['='].len() == 1);
        assert(seq!['='].last() == '=');
        assert(count_eq(Seq::<char>::empty()) == 0);
        assert(seq!['='].drop_last() =~= Seq::<char>::empty());
    }
    assert(count_eq(s) == 1);
    assert(entry_match_at(s, nl)) by {
        assert(is_name_start_char(s[0]));
        assert(s[nl + 1] == value[0]);
        assert(name_before(s, nl)) by {
            assert(0 <= 0 < nl && is_name_start_char(s[0]) && (forall|j: int|
                0 < j < nl ==> is_name_char(#[trigger] s[j])));
        }
    }
    let q = choose|q: int| 0 <= q < s.len() && s[q] == '=';
    assert(q == nl);
    assert(s.take(nl) =~= name);
    assert(s.skip(nl + 1) =~= value);
}

/// A line holding two or more `=` characters never parses to an entry,
/// whatever else it holds.
pub proof fn lemma_multi_eq_line_rejected(s: Seq<char>, i: int, j: int)
    requires
        0 <= i < j < s.len(),
        s[i] == '=',
        s[j] == '=',
    ensures
        spec_parse_entry(s) is None,
{
    lemma_two_eq_positions(s, i, j);
}

} // verus!
