//! Verified text utilities: the `::` path separator, joining and splitting
//! qualified names, substring search, and decimal rendering of integers.

use vstd::prelude::*;
use vstd::string::StrSliceExecFns;
use vstd::string::StringExecFns;

verus! {

/// The path separator between scope names in a qualified name.
pub open spec fn sep_chars() -> Seq<char> {
    seq![':', ':']
}

/// True when `s` holds the path separator somewhere.
pub open spec fn has_sep(s: Seq<char>) -> bool {
    exists|i: int| 0 <= i && i + 2 <= s.len() && #[trigger] s[i] == ':' && s[i + 1] == ':'
}

/// Character-wise equality of two string slices.
pub fn eq_str(a: &str, b: &str) -> (r: bool)
    ensures
        r == (a@ == b@),
{
    let n = a.unicode_len();
    if n != b.unicode_len() {
        return false;
    }
    let mut i: usize = 0;
    while i < n
        invariant
            n == a@.len(),
            n == b@.len(),
            i <= n,
            forall|j: int| 0 <= j < i ==> a@[j] == b@[j],
        decreases n - i,
    {
        if a.get_char(i) != b.get_char(i) {
            return false;
        }
        i = i + 1;
    }
    proof {
        assert(a@ =~= b@);
    }
    true
}

/// The scope names of `parts` joined by the separator.
pub open spec fn spec_join(parts: Seq<Seq<char>>) -> Seq<char>
    decreases parts.len(),
{
    if parts.len() == 0 {
        Seq::empty()
    } else if parts.len() == 1 {
        parts[0]
    } else {
        spec_join(parts.drop_last()) + sep_chars() + parts.last()
    }
}

/// Joins the given scope names with the separator.
pub fn join_segments(parts: &Vec<String>) -> (r: String)
    ensures
        r@ == spec_join(parts.deep_view()),
{
    let mut r = String::new();
    let mut i: usize = 0;
    proof {
        reveal_strlit("::");
        assert(parts.deep_view().subrange(0, 0) =~= Seq::<Seq<char>>::empty());
    }
    while i < parts.len()
        invariant
            i <= parts.len(),
            parts.deep_view().len() == parts.len(),
            "::"@ == sep_chars(),
            r@ == spec_join(parts.deep_view().subrange(0, i as int)),
        decreases parts.len() - i,
    {
        if i > 0 {
            r.append("::");
        }
        r.append(parts[i].as_str());
        proof {
            let dv = parts.deep_view();
            assert(dv.subrange(0, i + 1).drop_last() =~= dv.subrange(0, i as int));
            assert(dv.subrange(0, i + 1).last() == dv[i as int]);
            assert(dv[i as int] == parts@[i as int]@);
        }
        i = i + 1;
    }
    proof {
        assert(parts.deep_view().subrange(0, parts.len() as int) =~= parts.deep_view());
    }
    r
}

/// Joins two names with the separator, as `a::b`.
pub fn join_two(a: &str, b: &str) -> (r: String)
    ensures
        r@ == a@ + sep_chars() + b@,
{
    proof {
        reveal_strlit("::");
    }
    let mut r = String::from_str(a);
    r.append("::");
    r.append(b);
    r
}

/// Scans `s` for the separator.
pub fn find_sep(s: &str) -> (r: bool)
    ensures
        r == has_sep(s@),
{
    let n = s.unicode_len();
    if n < 2 {
        return false;
    }
    let mut i: usize = 0;
    while i <= n - 2
        invariant
            n == s@.len(),
            2 <= n,
            i <= n,
            forall|j: int| 0 <= j < i ==> !(#[trigger] s@[j] == ':' && s@[j + 1] == ':'),
        decreases n - i,
    {
        if s.get_char(i) == ':' && s.get_char(i + 1) == ':' {
            return true;
        }
        i = i + 1;
    }
    false
}

/// True when `p` occurs as a contiguous part of `s`.
pub open spec fn contains_sub(s: Seq<char>, p: Seq<char>) -> bool {
    exists|i: int| 0 <= i && i + p.len() <= s.len() && #[trigger] s.subrange(i, i + p.len()) == p
}

/// True when `s` ends with `p`.
pub open spec fn ends_with_sub(s: Seq<char>, p: Seq<char>) -> bool {
    p.len() <= s.len() && s.subrange(s.len() - p.len(), s.len() as int) == p
}

/// Substring search by direct character comparison.
pub fn str_contains(s: &str, p: &str) -> (r: bool)
    ensures
        r == contains_sub(s@, p@),
{
    let n = s.unicode_len();
    let m = p.unicode_len();
    if m > n {
        proof {
            assert forall|i: int| 0 <= i && i + p@.len() <= s@.len() implies #[trigger] s@
                .subrange(i, i + p@.len()) != p@ by {}
        }
        return false;
    }
    if m == 0 {
        proof {
            assert(contains_sub(s@, p@)) by {
                assert(s@.subrange(0, 0 + p@.len() as int) =~= p@);
            }
        }
        return true;
    }
    let mut i: usize = 0;
    while i <= n - m
        invariant
            n == s@.len(),
            m == p@.len(),
            0 < m <= n,
            i <= n - m + 1,
            forall|k: int| 0 <= k < i ==> #[trigger] s@.subrange(k, k + p@.len()) != p@,
        decreases n - i,
    {
        let mut j: usize = 0;
        let mut hit = true;
        while j < m
            invariant
                n == s@.len(),
                m == p@.len(),
                i + m <= n,
                j <= m,
                hit ==> forall|t: int| 0 <= t < j ==> s@[i + t] == p@[t],
                !hit ==> s@.subrange(i as int, i + p@.len()) != p@,
            decreases m - j,
        {
            if s.get_char(i + j) != p.get_char(j) {
                proof {
                    assert(s@.subrange(i as int, i + p@.len())[j as int] != p@[j as int]);
                }
                hit = false;
                j = m;
            } else {
                j = j + 1;
            }
        }
        if hit {
            proof {
                assert(s@.subrange(i as int, i + p@.len()) =~= p@);
            }
            return true;
        }
        i = i + 1;
    }
    proof {
        assert forall|k: int| 0 <= k && k + p@.len() <= s@.len() implies #[trigger] s@.subrange(
            k,
            k + p@.len(),
        ) != p@ by {
            assert(k < i);
        }
    }
    false
}

/// Suffix test by direct character comparison.
pub fn str_ends_with(s: &str, p: &str) -> (r: bool)
    ensures
        r == ends_with_sub(s@, p@),
{
    let n = s.unicode_len();
    let m = p.unicode_len();
    if m > n {
        return false;
    }
    let mut j: usize = 0;
    while j < m
        invariant
            n == s@.len(),
            m == p@.len(),
            m <= n,
            j <= m,
            forall|t: int| 0 <= t < j ==> s@[n - m + t] == p@[t],
        decreases m - j,
    {
        if s.get_char(n - m + j) != p.get_char(j) {
            proof {
                let jj = j as int;
                assert(s@.subrange(s@.len() - p@.len(), s@.len() as int)[jj] != p@[jj]);
            }
            return false;
        }
        j = j + 1;
    }
    proof {
        assert(s@.subrange(s@.len() - p@.len(), s@.len() as int) =~= p@);
    }
    true
}

/// The start index of the last occurrence of the separator in `s`, or -1.
pub open spec fn last_sep(s: Seq<char>) -> int
    decreases s.len(),
{
    if s.len() < 2 {
        -1
    } else if s[s.len() - 2] == ':' && s[s.len() - 1] == ':' {
        s.len() - 2
    } else {
        last_sep(s.drop_last())
    }
}

/// What splitting `s` at the last separator yields: the parts before and
/// after it, or nothing when `s` holds no separator.
pub open spec fn spec_rsplit(s: Seq<char>) -> Option<(Seq<char>, Seq<char>)> {
    if last_sep(s) < 0 {
        None
    } else {
        Some((s.subrange(0, last_sep(s)), s.subrange(last_sep(s) + 2, s.len() as int)))
    }
}

proof fn lemma_last_sep_at(s: Seq<char>, j: int)
    requires
        0 <= j,
        j + 2 <= s.len(),
        s[j] == ':',
        s[j + 1] == ':',
        forall|k: int| j < k && k + 2 <= s.len() ==> !(#[trigger] s[k] == ':' && s[k + 1] == ':'),
    ensures
        last_sep(s) == j,
    decreases s.len(),
{
    if j + 2 == s.len() {
    } else {
        assert(!(s[s.len() - 2] == ':' && s[s.len() - 1] == ':'));
        let t = s.drop_last();
        assert forall|k: int| j < k && k + 2 <= t.len() implies !(#[trigger] t[k] == ':' && t[k
            + 1] == ':') by {
            assert(t[k] == s[k] && t[k + 1] == s[k + 1]);
        }
        lemma_last_sep_at(t, j);
    }
}

proof fn lemma_last_sep_none(s: Seq<char>)
    requires
        forall|k: int| 0 <= k && k + 2 <= s.len() ==> !(#[trigger] s[k] == ':' && s[k + 1] == ':'),
    ensures
        last_sep(s) == -1,
    decreases s.len(),
{
    if s.len() < 2 {
    } else {
        let t = s.drop_last();
        assert forall|k: int| 0 <= k && k + 2 <= t.len() implies !(#[trigger] t[k] == ':' && t[k
            + 1] == ':') by {
            assert(t[k] == s[k] && t[k + 1] == s[k + 1]);
        }
        lemma_last_sep_none(t);
    }
}

/// Splits a qualified name at its last separator.
pub fn rsplit_sep(s: &str) -> (r: Option<(String, String)>)
    ensures
        match r {
            Some(pair) => spec_rsplit(s@) == Some((pair.0@, pair.1@)),
            None => spec_rsplit(s@) is None,
        },
{
    let n = s.unicode_len();
    if n < 2 {
        proof {
            lemma_last_sep_none(s@);
        }
        return None;
    }
    let mut k: usize = n - 2;
    loop
        invariant
            n == s@.len(),
            2 <= n,
            k <= n - 2,
            forall|t: int| k < t && t + 2 <= s@.len() ==> !(#[trigger] s@[t] == ':' && s@[t + 1]
                == ':'),
        decreases k,
    {
        if s.get_char(k) == ':' && s.get_char(k + 1) == ':' {
            proof {
                lemma_last_sep_at(s@, k as int);
            }
            let before = String::from_str(s.substring_char(0, k));
            let after = String::from_str(s.substring_char(k + 2, n));
            return Some((before, after));
        }
        if k == 0 {
            proof {
                lemma_last_sep_none(s@);
            }
            return None;
        }
        k = k - 1;
    }
}

/// The start index of the first occurrence of the separator in `s`, or -1.
pub open spec fn first_sep(s: Seq<char>) -> int
    decreases s.len(),
{
    if s.len() < 2 {
        -1
    } else if s[0] == ':' && s[1] == ':' {
        0
    } else {
        let r = first_sep(s.drop_first());
        if r < 0 {
            -1
        } else {
            r + 1
        }
    }
}

/// The leading segment of a qualified name: everything before the first
/// separator, or the whole name when it holds none.
pub open spec fn first_seg(s: Seq<char>) -> Seq<char> {
    if first_sep(s) < 0 {
        s
    } else {
        s.subrange(0, first_sep(s))
    }
}

pub proof fn lemma_first_sep_at(s: Seq<char>, k: int)
    requires
        0 <= k,
        k + 2 <= s.len(),
        s[k] == ':',
        s[k + 1] == ':',
        forall|j: int| 0 <= j < k ==> !(#[trigger] s[j] == ':' && s[j + 1] == ':'),
    ensures
        first_sep(s) == k,
    decreases k,
{
    if k > 0 {
        assert(!(s[0] == ':' && s[1] == ':'));
        let t = s.drop_first();
        assert forall|j: int| 0 <= j < k - 1 implies !(#[trigger] t[j] == ':' && t[j + 1]
            == ':') by {
            assert(t[j] == s[j + 1] && t[j + 1] == s[j + 2]);
        }
        assert(t[k - 1] == s[k] && t[k] == s[k + 1]);
        lemma_first_sep_at(t, k - 1);
    }
}

pub proof fn lemma_first_sep_none(s: Seq<char>)
    requires
        forall|j: int| 0 <= j && j + 2 <= s.len() ==> !(#[trigger] s[j] == ':' && s[j + 1]
            == ':'),
    ensures
        first_sep(s) == -1,
    decreases s.len(),
{
    if s.len() >= 2 {
        let t = s.drop_first();
        assert forall|j: int| 0 <= j && j + 2 <= t.len() implies !(#[trigger] t[j] == ':' && t[j
            + 1] == ':') by {
            assert(t[j] == s[j + 1] && t[j + 1] == s[j + 2]);
        }
        lemma_first_sep_none(t);
    }
}

/// `s` with every double-quote character removed.
pub open spec fn strip_quotes_spec(s: Seq<char>) -> Seq<char>
    decreases s.len(),
{
    if s.len() == 0 {
        Seq::empty()
    } else if s.last() == '"' {
        strip_quotes_spec(s.drop_last())
    } else {
        strip_quotes_spec(s.drop_last()).push(s.last())
    }
}

/// Removes every double-quote character from a label.
pub fn strip_quotes(s: &str) -> (r: String)
    ensures
        r@ == strip_quotes_spec(s@),
{
    let n = s.unicode_len();
    let mut r = String::new();
    let mut i: usize = 0;
    proof {
        assert(s@.subrange(0, 0) =~= Seq::<char>::empty());
    }
    while i < n
        invariant
            n == s@.len(),
            i <= n,
            r@ == strip_quotes_spec(s@.subrange(0, i as int)),
        decreases n - i,
    {
        proof {
            assert(s@.subrange(0, i + 1).drop_last() =~= s@.subrange(0, i as int));
            assert(s@.subrange(0, i + 1).last() == s@[i as int]);
        }
        if s.get_char(i) != '"' {
            let piece = s.substring_char(i, i + 1);
            proof {
                assert(piece@ =~= seq![s@[i as int]]);
                assert(strip_quotes_spec(s@.subrange(0, i as int)).push(s@[i as int]) =~= r@
                    + piece@);
            }
            r.append(piece);
        }
        i = i + 1;
    }
    proof {
        assert(s@.subrange(0, n as int) =~= s@);
    }
    r
}

/// The decimal digit character for `d` in 0..10.
pub open spec fn digit_char(d: int) -> char {
    if d == 0 {
        '0'
    } else if d == 1 {
        '1'
    } else if d == 2 {
        '2'
    } else if d == 3 {
        '3'
    } else if d == 4 {
        '4'
    } else if d == 5 {
        '5'
    } else if d == 6 {
        '6'
    } else if d == 7 {
        '7'
    } else if d == 8 {
        '8'
    } else {
        '9'
    }
}

/// The decimal rendering of a non-negative integer.
pub open spec fn dec_digits(n: int) -> Seq<char>
    decreases n,
{
    if n < 10 {
        seq![digit_char(n)]
    } else {
        dec_digits(n / 10).push(digit_char(n % 10))
    }
}

fn digit_str(d: usize) -> (r: &'static str)
    requires
        d < 10,
    ensures
        r@ == seq![digit_char(d as int)],
{
    proof {
        reveal_strlit("0");
        reveal_strlit("1");
        reveal_strlit("2");
        reveal_strlit("3");
        reveal_strlit("4");
        reveal_strlit("5");
        reveal_strlit("6");
        reveal_strlit("7");
        reveal_strlit("8");
        reveal_strlit("9");
    }
    let r = if d == 0 {
        "0"
    } else if d == 1 {
        "1"
    } else if d == 2 {
        "2"
    } else if d == 3 {
        "3"
    } else if d == 4 {
        "4"
    } else if d == 5 {
        "5"
    } else if d == 6 {
        "6"
    } else if d == 7 {
        "7"
    } else if d == 8 {
        "8"
    } else {
        "9"
    };
    proof {
        assert(r@ =~= seq![digit_char(d as int)]);
    }
    r
}

/// Renders `n` in decimal.
pub fn dec_string(n: usize) -> (r: String)
    ensures
        r@ == dec_digits(n as int),
    decreases n,
{
    if n < 10 {
        String::from_str(digit_str(n))
    } else {
        let mut r = dec_string(n / 10);
        r.append(digit_str(n % 10));
        proof {
            assert(dec_digits((n / 10) as int).push(digit_char((n % 10) as int)) =~= r@);
        }
        r
    }
}

/// Lexicographic order on character sequences, by code point.
pub open spec fn lex_le(a: Seq<char>, b: Seq<char>) -> bool
    decreases a.len(),
{
    if a.len() == 0 {
        true
    } else if b.len() == 0 {
        false
    } else if (a[0] as u32) < (b[0] as u32) {
        true
    } else if (a[0] as u32) > (b[0] as u32) {
        false
    } else {
        lex_le(a.drop_first(), b.drop_first())
    }
}

/// Lexicographic comparison of two names.
pub fn lex_le_str(a: &str, b: &str) -> (r: bool)
    ensures
        r == lex_le(a@, b@),
{
    let n = a.unicode_len();
    let m = b.unicode_len();
    let mut i: usize = 0;
    proof {
        assert(a@.skip(0) =~= a@);
        assert(b@.skip(0) =~= b@);
    }
    loop
        invariant
            n == a@.len(),
            m == b@.len(),
            i <= n,
            i <= m,
            lex_le(a@, b@) == lex_le(a@.skip(i as int), b@.skip(i as int)),
        decreases n - i,
    {
        if i == n {
            proof {
                assert(a@.skip(i as int).len() == 0);
            }
            return true;
        }
        if i == m {
            proof {
                assert(b@.skip(i as int).len() == 0);
                assert(a@.skip(i as int).len() > 0);
            }
            return false;
        }
        let ca = a.get_char(i);
        let cb = b.get_char(i);
        proof {
            assert(a@.skip(i as int)[0] == a@[i as int]);
            assert(b@.skip(i as int)[0] == b@[i as int]);
            assert(a@.skip(i as int).drop_first() =~= a@.skip(i + 1));
            assert(b@.skip(i as int).drop_first() =~= b@.skip(i + 1));
        }
        if (ca as u32) < (cb as u32) {
            return true;
        }
        if (ca as u32) > (cb as u32) {
            return false;
        }
        i = i + 1;
    }
}

/// `s` with `x` inserted before the first element that `x` precedes or equals.
pub open spec fn insert_lex(x: Seq<char>, s: Seq<Seq<char>>) -> Seq<Seq<char>>
    decreases s.len(),
{
    if s.len() == 0 {
        seq![x]
    } else if lex_le(x, s[0]) {
        seq![x] + s
    } else {
        seq![s[0]] + insert_lex(x, s.drop_first())
    }
}

/// The names of `s` in lexicographic order, by repeated insertion.
pub open spec fn sort_lex(s: Seq<Seq<char>>) -> Seq<Seq<char>>
    decreases s.len(),
{
    if s.len() == 0 {
        Seq::empty()
    } else {
        insert_lex(s.last(), sort_lex(s.drop_last()))
    }
}

proof fn lemma_insert_lex_at(x: Seq<char>, s: Seq<Seq<char>>, j: int)
    requires
        0 <= j <= s.len(),
        forall|k: int| 0 <= k < j ==> !lex_le(x, #[trigger] s[k]),
        j < s.len() ==> lex_le(x, s[j]),
    ensures
        insert_lex(x, s) == s.subrange(0, j) + seq![x] + s.subrange(j, s.len() as int),
    decreases j,
{
    if j == 0 {
        if s.len() == 0 {
            assert(insert_lex(x, s) =~= s.subrange(0, 0) + seq![x] + s.subrange(0, 0));
        } else {
            assert(insert_lex(x, s) =~= s.subrange(0, 0) + seq![x] + s.subrange(
                0,
                s.len() as int,
            ));
        }
    } else {
        let t = s.drop_first();
        assert forall|k: int| 0 <= k < j - 1 implies !lex_le(x, #[trigger] t[k]) by {
            assert(t[k] == s[k + 1]);
        }
        assert(j - 1 < t.len() ==> lex_le(x, t[j - 1]));
        lemma_insert_lex_at(x, t, j - 1);
        assert(seq![s[0]] + (t.subrange(0, j - 1) + seq![x] + t.subrange(j - 1, t.len() as int))
            =~= s.subrange(0, j) + seq![x] + s.subrange(j, s.len() as int));
    }
}

/// Sorts a list of names lexicographically by insertion.
pub fn sort_strings(v: &Vec<String>) -> (r: Vec<String>)
    ensures
        r.deep_view() == sort_lex(v.deep_view()),
{
    let mut out: Vec<String> = Vec::new();
    let mut i: usize = 0;
    proof {
        assert(out.deep_view() =~= Seq::<Seq<char>>::empty());
        assert(v.deep_view().subrange(0, 0) =~= Seq::<Seq<char>>::empty());
    }
    while i < v.len()
        invariant
            i <= v.len(),
            v.deep_view().len() == v.len(),
            out.deep_view() == sort_lex(v.deep_view().subrange(0, i as int)),
        decreases v.len() - i,
    {
        let x = clone_string(&v[i]);
        let odv = Ghost(out.deep_view());
        let mut j: usize = 0;
        let mut place = out.len();
        let mut found = false;
        while j < out.len()
            invariant
                j <= out.len(),
                out.deep_view().len() == out@.len(),
                x@ == v.deep_view()[i as int],
                !found ==> place == out.len(),
                found ==> j == out@.len(),
                !found ==> forall|k: int|
                    0 <= k < j ==> !lex_le(x@, #[trigger] out.deep_view()[k]),
                found ==> place < out@.len() && lex_le(x@, out.deep_view()[place as int])
                    && forall|k: int|
                    0 <= k < place ==> !lex_le(x@, #[trigger] out.deep_view()[k]),
            decreases out@.len() - j,
        {
            if lex_le_str(x.as_str(), out[j].as_str()) {
                proof {
                    assert(out.deep_view()[j as int] == out@[j as int]@);
                }
                place = j;
                found = true;
                j = out.len();
            } else {
                proof {
                    assert(out.deep_view()[j as int] == out@[j as int]@);
                }
                j = j + 1;
            }
        }
        proof {
            lemma_insert_lex_at(x@, out.deep_view(), place as int);
        }
        out.insert(place, x);
        proof {
            let dv = v.deep_view();
            assert(out.deep_view() =~= odv@.subrange(0, place as int) + seq![dv[i as int]]
                + odv@.subrange(place as int, odv@.len() as int));
            assert(dv.subrange(0, i + 1).drop_last() =~= dv.subrange(0, i as int));
            assert(dv.subrange(0, i + 1).last() == dv[i as int]);
        }
        i = i + 1;
    }
    proof {
        assert(v.deep_view().subrange(0, v.len() as int) =~= v.deep_view());
    }
    out
}

/// Inserting preserves membership, and adds the inserted name.
pub proof fn lemma_insert_lex_contains(x: Seq<char>, s: Seq<Seq<char>>, y: Seq<char>)
    ensures
        insert_lex(x, s).contains(y) <==> (s.contains(y) || y == x),
    decreases s.len(),
{
    let r = insert_lex(x, s);
    if s.len() == 0 {
        assert(r[0] == x);
        if r.contains(y) {
            let w = choose|w: int| 0 <= w < r.len() && r[w] == y;
            assert(r[w] == x);
        }
    } else if lex_le(x, s[0]) {
        if s.contains(y) {
            let w = choose|w: int| 0 <= w < s.len() && s[w] == y;
            assert(r[w + 1] == y);
        }
        if y == x {
            assert(r[0] == y);
        }
        if r.contains(y) {
            let w = choose|w: int| 0 <= w < r.len() && r[w] == y;
            if w > 0 {
                assert(s[w - 1] == y);
            }
        }
    } else {
        lemma_insert_lex_contains(x, s.drop_first(), y);
        let tr = insert_lex(x, s.drop_first());
        if s.contains(y) {
            let w = choose|w: int| 0 <= w < s.len() && s[w] == y;
            if w == 0 {
                assert(r[0] == y);
            } else {
                assert(s.drop_first()[w - 1] == y);
                let u = choose|u: int| 0 <= u < tr.len() && tr[u] == y;
                assert(r[u + 1] == y);
            }
        }
        if y == x {
            let u = choose|u: int| 0 <= u < tr.len() && tr[u] == y;
            assert(r[u + 1] == y);
        }
        if r.contains(y) {
            let w = choose|w: int| 0 <= w < r.len() && r[w] == y;
            if w == 0 {
                assert(s[0] == y);
            } else {
                assert(tr[w - 1] == y);
                if !(y == x) {
                    let u = choose|u: int| 0 <= u < s.drop_first().len() && s.drop_first()[u]
                        == y;
                    assert(s[u + 1] == y);
                }
            }
        }
    }
}

/// Sorting neither adds nor removes names.
pub proof fn lemma_sort_lex_contains(s: Seq<Seq<char>>, y: Seq<char>)
    ensures
        sort_lex(s).contains(y) <==> s.contains(y),
    decreases s.len(),
{
    if s.len() > 0 {
        lemma_sort_lex_contains(s.drop_last(), y);
        lemma_insert_lex_contains(s.last(), sort_lex(s.drop_last()), y);
        if s.contains(y) {
            let w = choose|w: int| 0 <= w < s.len() && s[w] == y;
            if w < s.len() - 1 {
                assert(s.drop_last()[w] == y);
            }
        }
        if s.drop_last().contains(y) {
            let w = choose|w: int| 0 <= w < s.drop_last().len() && s.drop_last()[w] == y;
            assert(s[w] == y);
        }
    }
}

/// Sorting keeps the number of names.
pub proof fn lemma_sort_lex_len(s: Seq<Seq<char>>)
    ensures
        sort_lex(s).len() == s.len(),
    decreases s.len(),
{
    if s.len() > 0 {
        lemma_sort_lex_len(s.drop_last());
        lemma_insert_lex_len(s.last(), sort_lex(s.drop_last()));
    }
}

proof fn lemma_insert_lex_len(x: Seq<char>, s: Seq<Seq<char>>)
    ensures
        insert_lex(x, s).len() == s.len() + 1,
    decreases s.len(),
{
    if s.len() > 0 && !lex_le(x, s[0]) {
        lemma_insert_lex_len(x, s.drop_first());
    }
}

/// A copy of `s` with the same characters.
pub fn clone_string(s: &String) -> (r: String)
    ensures
        r@ == s@,
{
    s.clone()
}

/// Tests whether a name is among the listed names.
pub fn name_listed(v: &Vec<String>, x: &str) -> (r: bool)
    ensures
        r == v.deep_view().contains(x@),
{
    let mut i: usize = 0;
    while i < v.len()
        invariant
            i <= v@.len(),
            v.deep_view().len() == v@.len(),
            forall|j: int| 0 <= j < i ==> v.deep_view()[j] != x@,
        decreases v@.len() - i,
    {
        proof {
            assert(v.deep_view()[i as int] == v@[i as int]@);
        }
        if eq_str(v[i].as_str(), x) {
            return true;
        }
        i = i + 1;
    }
    proof {
        assert(!v.deep_view().contains(x@));
    }
    false
}

/// The index of the first element of `s` equal to `x`; `s.len()` when absent.
pub open spec fn idx_of(s: Seq<Seq<char>>, x: Seq<char>) -> int
    decreases s.len(),
{
    if s.len() == 0 {
        0
    } else if s[0] == x {
        0
    } else {
        1 + idx_of(s.drop_first(), x)
    }
}

pub proof fn lemma_idx_of(s: Seq<Seq<char>>, x: Seq<char>)
    ensures
        0 <= idx_of(s, x) <= s.len(),
        s.contains(x) ==> idx_of(s, x) < s.len() && s[idx_of(s, x)] == x,
        !s.contains(x) ==> idx_of(s, x) == s.len(),
    decreases s.len(),
{
    if s.len() > 0 && s[0] != x {
        lemma_idx_of(s.drop_first(), x);
        let t = s.drop_first();
        if s.contains(x) {
            let w = choose|w: int| 0 <= w < s.len() && s[w] == x;
            assert(t[w - 1] == x);
            assert(t.contains(x));
        }
        if t.contains(x) {
            let w = choose|w: int| 0 <= w < t.len() && t[w] == x;
            assert(s[w + 1] == x);
            assert(s.contains(x));
        }
    }
}

/// Finds the first position of `x` in `names`, scanning from the front.
pub fn find_name(names: &Vec<String>, x: &str) -> (r: usize)
    ensures
        r == idx_of(names.deep_view(), x@),
        r <= names@.len(),
{
    let mut i: usize = 0;
    proof {
        assert(names.deep_view().skip(0) =~= names.deep_view());
    }
    while i < names.len()
        invariant
            i <= names@.len(),
            names.deep_view().len() == names@.len(),
            idx_of(names.deep_view(), x@) == i + idx_of(
                names.deep_view().skip(i as int),
                x@,
            ),
            forall|k: int| 0 <= k < i ==> names.deep_view()[k] != x@,
        decreases names@.len() - i,
    {
        proof {
            assert(names.deep_view()[i as int] == names@[i as int]@);
            assert(names.deep_view().skip(i as int)[0] == names.deep_view()[i as int]);
            assert(names.deep_view().skip(i as int).drop_first() =~= names.deep_view().skip(i
                + 1));
        }
        if eq_str(names[i].as_str(), x) {
            return i;
        }
        i = i + 1;
    }
    proof {
        assert(names.deep_view().skip(i as int).len() == 0);
    }
    i
}

} // verus!
