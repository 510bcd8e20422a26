//! Character-sequence utilities: substring search, splitting on whitespace,
//! trimming, removing occurrences of a pattern, and conversions between
//! `&str`/`String` and `Vec<char>`.

use vstd::prelude::*;

verus! {

/// The whitespace characters recognised by this crate: the Unicode
/// White_Space set, the same characters `char::is_whitespace` accepts.
pub open spec fn is_space_char(c: char) -> bool {
    let u = c as u32;
    ||| (9 <= u && u <= 13)
    ||| u == 32
    ||| u == 0x85
    ||| u == 0xa0
    ||| u == 0x1680
    ||| (0x2000 <= u && u <= 0x200a)
    ||| u == 0x2028
    ||| u == 0x2029
    ||| u == 0x202f
    ||| u == 0x205f
    ||| u == 0x3000
}

pub fn is_space(c: char) -> (b: bool)
    ensures
        b == is_space_char(c),
{
    let u = c as u32;
    (9 <= u && u <= 13) || u == 32 || u == 0x85 || u == 0xa0 || u == 0x1680 || (0x2000 <= u && u
        <= 0x200a) || u == 0x2028 || u == 0x2029 || u == 0x202f || u == 0x205f || u == 0x3000
}

/// `pat` occurs in `s` starting at index `i`.
pub open spec fn match_at(s: Seq<char>, pat: Seq<char>, i: int) -> bool {
    &&& 0 <= i
    &&& i + pat.len() <= s.len()
    &&& s.subrange(i, i + pat.len() as int) == pat
}

/// `pat` occurs somewhere in `s`.
pub open spec fn contains_seq(s: Seq<char>, pat: Seq<char>) -> bool {
    exists|i: int| match_at(s, pat, i)
}

/// Index of the leftmost occurrence of `pat` in `s`, or -1 if there is none.
pub open spec fn spec_find(s: Seq<char>, pat: Seq<char>) -> int
    decreases s.len(),
{
    if s.len() == 0 {
        -1
    } else if pat.len() >= 1 && s.len() >= pat.len() && s.subrange(0, pat.len() as int) == pat {
        0
    } else {
        let r = spec_find(s.skip(1), pat);
        if r >= 0 {
            r + 1
        } else {
            -1
        }
    }
}

/// How many non-overlapping occurrences of `pat` a left-to-right scan of `s`
/// finds (the occurrences that `str::split` separates on).
pub open spec fn spec_count_occ(s: Seq<char>, pat: Seq<char>) -> nat
    decreases s.len(),
{
    if s.len() == 0 {
        0
    } else if pat.len() >= 1 && s.len() >= pat.len() && s.subrange(0, pat.len() as int) == pat {
        1 + spec_count_occ(s.skip(pat.len() as int), pat)
    } else {
        spec_count_occ(s.skip(1), pat)
    }
}

/// `s` with every occurrence of `pat` removed, scanning left to right and
/// not re-examining removed regions, as `str::replace(pat, "")` does.
pub open spec fn spec_remove_all(s: Seq<char>, pat: Seq<char>) -> Seq<char>
    decreases s.len(),
{
    if s.len() == 0 {
        s
    } else if pat.len() >= 1 && s.len() >= pat.len() && s.subrange(0, pat.len() as int) == pat {
        spec_remove_all(s.skip(pat.len() as int), pat)
    } else {
        seq![s[0]] + spec_remove_all(s.skip(1), pat)
    }
}

pub open spec fn spec_trim_end(s: Seq<char>) -> Seq<char>
    decreases s.len(),
{
    if s.len() > 0 && is_space_char(s.last()) {
        spec_trim_end(s.drop_last())
    } else {
        s
    }
}

pub open spec fn spec_trim_start(s: Seq<char>) -> Seq<char>
    decreases s.len(),
{
    if s.len() > 0 && is_space_char(s[0]) {
        spec_trim_start(s.skip(1))
    } else {
        s
    }
}

pub open spec fn spec_trim(s: Seq<char>) -> Seq<char> {
    spec_trim_start(spec_trim_end(s))
}

/// Length of the run of non-whitespace characters at the front of `s`.
pub open spec fn spec_word_len(s: Seq<char>) -> nat
    decreases s.len(),
{
    if s.len() == 0 || is_space_char(s[0]) {
        0
    } else {
        1 + spec_word_len(s.skip(1))
    }
}

/// The run of non-whitespace characters at the front of `s` is no longer
/// than `s`.
pub proof fn lemma_word_len_le(s: Seq<char>)
    ensures
        spec_word_len(s) <= s.len(),
    decreases s.len(),
{
    if s.len() > 0 && !is_space_char(s[0]) {
        lemma_word_len_le(s.skip(1));
    }
}

/// The whitespace-separated words of `s`, in order.
pub open spec fn spec_split_ws(s: Seq<char>) -> Seq<Seq<char>>
    decreases s.len(),
    via spec_split_ws_decreases
{
    if s.len() == 0 {
        Seq::empty()
    } else if is_space_char(s[0]) {
        spec_split_ws(s.skip(1))
    } else {
        let wl = 1 + spec_word_len(s.skip(1));
        seq![s.take(wl as int)] + spec_split_ws(s.skip(wl as int))
    }
}

#[via_fn]
proof fn spec_split_ws_decreases(s: Seq<char>) {
    if s.len() > 0 && !is_space_char(s[0]) {
        lemma_word_len_le(s.skip(1));
    }
}

/// The leftmost occurrence returned by `spec_find` is a match, and no
/// earlier index is.
pub proof fn lemma_find_charac(s: Seq<char>, pat: Seq<char>)
    requires
        pat.len() >= 1,
    ensures
        spec_find(s, pat) == -1 ==> !contains_seq(s, pat),
        spec_find(s, pat) >= 0 ==> match_at(s, pat, spec_find(s, pat)) && (forall|j: int|
            0 <= j < spec_find(s, pat) ==> !match_at(s, pat, j)),
    decreases s.len(),
{
    if s.len() == 0 {
        assert(forall|i: int| !match_at(s, pat, i));
    } else if s.len() >= pat.len() && s.subrange(0, pat.len() as int) == pat {
        assert(match_at(s, pat, 0));
    } else {
        lemma_find_charac(s.skip(1), pat);
        assert forall|j: int| 1 <= j && match_at(s, pat, j) implies match_at(
            s.skip(1),
            pat,
            j - 1,
        ) by {
            assert(s.skip(1).subrange(j - 1, j - 1 + pat.len() as int) =~= s.subrange(
                j,
                j + pat.len() as int,
            ));
        }
        assert forall|j: int| 0 <= j && match_at(s.skip(1), pat, j) implies match_at(
            s,
            pat,
            j + 1,
        ) by {
            assert(s.subrange(j + 1, j + 1 + pat.len() as int) =~= s.skip(1).subrange(
                j,
                j + pat.len() as int,
            ));
        }
        assert(!match_at(s, pat, 0));
        if spec_find(s.skip(1), pat) == -1 {
            assert forall|i: int| !match_at(s, pat, i) by {
                if 1 <= i && match_at(s, pat, i) {
                    assert(match_at(s.skip(1), pat, i - 1));
                }
            }
        }
    }
}

/// A scan finds an occurrence exactly when there is one.
pub proof fn lemma_count_find(s: Seq<char>, pat: Seq<char>)
    requires
        pat.len() >= 1,
    ensures
        (spec_count_occ(s, pat) >= 1) <==> (spec_find(s, pat) >= 0),
    decreases s.len(),
{
    if s.len() == 0 {
    } else if s.len() >= pat.len() && s.subrange(0, pat.len() as int) == pat {
    } else {
        lemma_count_find(s.skip(1), pat);
    }
}

/// The views of a sequence of character vectors.
pub open spec fn views_of(ts: Seq<Vec<char>>) -> Seq<Seq<char>> {
    ts.map_values(|v: Vec<char>| v@)
}

/// The characters of `v` from `a` up to `b`.
pub fn subrange_chars(v: &Vec<char>, a: usize, b: usize) -> (r: Vec<char>)
    requires
        a <= b <= v@.len(),
    ensures
        r@ == v@.subrange(a as int, b as int),
{
    let mut out: Vec<char> = Vec::new();
    let mut i: usize = a;
    while i < b
        invariant
            a <= i <= b <= v@.len(),
            out@ =~= v@.subrange(a as int, i as int),
        decreases b - i,
    {
        out.push(v[i]);
        i = i + 1;
    }
    proof {
        assert(out@ =~= v@.subrange(a as int, b as int));
    }
    out
}

/// `s` with trailing whitespace removed.
pub fn trim_end_chars(s: &Vec<char>) -> (r: Vec<char>)
    ensures
        r@ == spec_trim_end(s@),
{
    let n = s.len();
    let mut e: usize = n;
    proof {
        assert(s@.take(n as int) =~= s@);
    }
    while e > 0 && is_space(s[e - 1])
        invariant
            e <= n,
            n == s@.len(),
            spec_trim_end(s@) == spec_trim_end(s@.take(e as int)),
        decreases e,
    {
        proof {
            assert(s@.take(e as int).drop_last() =~= s@.take(e - 1));
        }
        e = e - 1;
    }
    proof {
        assert(spec_trim_end(s@.take(e as int)) == s@.take(e as int));
    }
    let r = subrange_chars(s, 0, e);
    proof {
        assert(s@.take(e as int) =~= s@.subrange(0, e as int));
    }
    r
}

/// The characters of `s` starting at `i` equal `pat`.
pub fn eq_at(s: &Vec<char>, pat: &Vec<char>, i: usize) -> (b: bool)
    requires
        i + pat@.len() <= s@.len(),
    ensures
        b == (s@.subrange(i as int, i + pat@.len() as int) == pat@),
{
    let n = s.len();
    let m = pat.len();
    for j in 0..m
        invariant
            i + m <= n,
            n == s@.len(),
            m == pat@.len(),
            forall|k: int| 0 <= k < j ==> s@[i + k] == pat@[k],
    {
        if s[i + j] != pat[j] {
            assert(s@.subrange(i as int, i + pat@.len() as int)[j as int] != pat@[j as int]);
            return false;
        }
    }
    assert(s@.subrange(i as int, i + pat@.len() as int) =~= pat@);
    true
}

pub fn contains_chars(s: &Vec<char>, pat: &Vec<char>) -> (b: bool)
    requires
        pat@.len() >= 1,
    ensures
        b == contains_seq(s@, pat@),
{
    let n = s.len();
    let m = pat.len();
    if m > n {
        assert(forall|i: int| !match_at(s@, pat@, i));
        return false;
    }
    let bound = n - m + 1;
    for i in 0..bound
        invariant
            m == pat@.len(),
            n == s@.len(),
            m <= n,
            bound == n - m + 1,
            forall|j: int| 0 <= j < i ==> !match_at(s@, pat@, j),
    {
        if eq_at(s, pat, i) {
            assert(match_at(s@, pat@, i as int));
            return true;
        }
    }
    assert(forall|i: int| !match_at(s@, pat@, i));
    false
}

/// Leftmost occurrence of `pat` in `s`, as an index.
pub fn find_chars(s: &Vec<char>, pat: &Vec<char>) -> (r: Option<usize>)
    requires
        pat@.len() >= 1,
    ensures
        match r {
            Some(i) => spec_find(s@, pat@) == i,
            None => spec_find(s@, pat@) == -1,
        },
{
    let n = s.len();
    let m = pat.len();
    if m > n {
        proof {
            lemma_find_charac(s@, pat@);
            assert(forall|i: int| !match_at(s@, pat@, i));
        }
        return None;
    }
    let bound = n - m + 1;
    for i in 0..bound
        invariant
            m == pat@.len(),
            m >= 1,
            n == s@.len(),
            m <= n,
            bound == n - m + 1,
            forall|j: int| 0 <= j < i ==> !match_at(s@, pat@, j),
    {
        if eq_at(s, pat, i) {
            assert(match_at(s@, pat@, i as int));
            proof {
                lemma_find_charac(s@, pat@);
                let f = spec_find(s@, pat@);
                if f == -1 {
                    assert(!contains_seq(s@, pat@));
                    assert(false);
                }
                if f < i {
                    assert(!match_at(s@, pat@, f));
                    assert(false);
                }
                if f > i {
                    assert(!match_at(s@, pat@, i as int));
                    assert(false);
                }
            }
            return Some(i);
        }
    }
    assert(forall|i: int| !match_at(s@, pat@, i));
    proof {
        lemma_find_charac(s@, pat@);
        if spec_find(s@, pat@) >= 0 {
            assert(match_at(s@, pat@, spec_find(s@, pat@)));
        }
    }
    None
}

/// Count the non-overlapping occurrences of `pat` in `s`, scanning left to
/// right, capped at 2 (the callers only need to know 0, 1, or more).
pub fn count_occ_capped(s: &Vec<char>, pat: &Vec<char>) -> (r: usize)
    requires
        pat@.len() >= 1,
    ensures
        r <= 2,
        (r as nat == spec_count_occ(s@, pat@)) || (r == 2 && spec_count_occ(s@, pat@) >= 2),
{
    let n = s.len();
    let m = pat.len();
    let mut i: usize = 0;
    let mut cnt: usize = 0;
    proof {
        assert(s@.skip(0) =~= s@);
    }
    while i < n
        invariant
            m == pat@.len(),
            m >= 1,
            n == s@.len(),
            i <= n,
            cnt <= 2,
            (spec_count_occ(s@, pat@) == cnt + spec_count_occ(s@.skip(i as int), pat@)) || (cnt
                == 2 && spec_count_occ(s@, pat@) >= 2),
        decreases n - i,
    {
        if m <= n - i && eq_at(s, pat, i) {
            proof {
                assert(s@.skip(i as int).subrange(0, m as int) =~= s@.subrange(
                    i as int,
                    i + m as int,
                ));
                assert(s@.skip(i as int).skip(m as int) =~= s@.skip(i + m as int));
            }
            if cnt < 2 {
                cnt = cnt + 1;
            }
            i = i + m;
        } else {
            proof {
                if i + m <= n {
                    assert(s@.skip(i as int).subrange(0, m as int) =~= s@.subrange(
                        i as int,
                        i + m as int,
                    ));
                }
                assert(s@.skip(i as int).skip(1) =~= s@.skip(i + 1));
            }
            i = i + 1;
        }
    }
    proof {
        assert(s@.skip(n as int) =~= Seq::<char>::empty());
    }
    cnt
}

/// `s` with every occurrence of `pat` removed.
pub fn remove_all_chars(s: &Vec<char>, pat: &Vec<char>) -> (r: Vec<char>)
    requires
        pat@.len() >= 1,
    ensures
        r@ == spec_remove_all(s@, pat@),
{
    let n = s.len();
    let m = pat.len();
    let mut out: Vec<char> = Vec::new();
    let mut i: usize = 0;
    proof {
        assert(s@.skip(0) =~= s@);
        assert(Seq::<char>::empty() + spec_remove_all(s@, pat@) =~= spec_remove_all(s@, pat@));
    }
    while i < n
        invariant
            m == pat@.len(),
            m >= 1,
            n == s@.len(),
            i <= n,
            spec_remove_all(s@, pat@) == out@ + spec_remove_all(s@.skip(i as int), pat@),
        decreases n - i,
    {
        if m <= n - i && eq_at(s, pat, i) {
            proof {
                assert(s@.skip(i as int).subrange(0, m as int) =~= s@.subrange(
                    i as int,
                    i + m as int,
                ));
                assert(s@.skip(i as int).skip(m as int) =~= s@.skip(i + m as int));
            }
            i = i + m;
        } else {
            proof {
                if i + m <= n {
                    assert(s@.skip(i as int).subrange(0, m as int) =~= s@.subrange(
                        i as int,
                        i + m as int,
                    ));
                }
                assert(s@.skip(i as int).skip(1) =~= s@.skip(i + 1));
                assert(out@ + seq![s@[i as int]] + spec_remove_all(s@.skip(i + 1), pat@) =~= out@
                    + (seq![s@[i as int]] + spec_remove_all(s@.skip(i + 1), pat@)));
            }
            out.push(s[i]);
            i = i + 1;
        }
    }
    proof {
        assert(s@.skip(n as int) =~= Seq::<char>::empty());
        assert(out@ + Seq::<char>::empty() =~= out@);
    }
    out
}

/// The whitespace-trimmed middle of `s`.
pub fn trim_chars(s: &Vec<char>) -> (r: Vec<char>)
    ensures
        r@ == spec_trim(s@),
{
    let n = s.len();
    let mut e: usize = n;
    proof {
        assert(s@.take(n as int) =~= s@);
    }
    while e > 0 && is_space(s[e - 1])
        invariant
            e <= n,
            n == s@.len(),
            spec_trim_end(s@) == spec_trim_end(s@.take(e as int)),
        decreases e,
    {
        proof {
            assert(s@.take(e as int).drop_last() =~= s@.take(e - 1));
        }
        e = e - 1;
    }
    proof {
        assert(spec_trim_end(s@.take(e as int)) == s@.take(e as int));
    }
    let mut b: usize = 0;
    proof {
        assert(s@.take(e as int) =~= s@.subrange(0, e as int));
    }
    while b < e && is_space(s[b])
        invariant
            b <= e <= n,
            n == s@.len(),
            spec_trim_start(s@.take(e as int)) == spec_trim_start(
                s@.subrange(b as int, e as int),
            ),
            spec_trim_end(s@) == s@.take(e as int),
        decreases e - b,
    {
        proof {
            assert(s@.subrange(b as int, e as int).skip(1) =~= s@.subrange(b + 1, e as int));
        }
        b = b + 1;
    }
    proof {
        assert(spec_trim_start(s@.subrange(b as int, e as int)) == s@.subrange(b as int, e as int));
    }
    let mut out: Vec<char> = Vec::new();
    let mut i: usize = b;
    while i < e
        invariant
            b <= i <= e <= n,
            n == s@.len(),
            out@ =~= s@.subrange(b as int, i as int),
        decreases e - i,
    {
        out.push(s[i]);
        i = i + 1;
    }
    proof {
        assert(out@ =~= s@.subrange(b as int, e as int));
    }
    out
}

/// The whitespace-separated words of `s`.
pub fn split_ws_chars(s: &Vec<char>) -> (r: Vec<Vec<char>>)
    ensures
        r@.len() == spec_split_ws(s@).len(),
        forall|k: int| 0 <= k < r@.len() ==> r@[k]@ == spec_split_ws(s@)[k],
{
    let n = s.len();
    let mut out: Vec<Vec<char>> = Vec::new();
    let mut i: usize = 0;
    proof {
        assert(s@.skip(0) =~= s@);
        assert(out@.map_values(|w: Vec<char>| w@) + spec_split_ws(s@) =~= spec_split_ws(s@));
    }
    while i < n
        invariant
            n == s@.len(),
            i <= n,
            spec_split_ws(s@) == out@.map_values(|w: Vec<char>| w@) + spec_split_ws(
                s@.skip(i as int),
            ),
        decreases n - i,
    {
        if is_space(s[i]) {
            proof {
                assert(s@.skip(i as int).skip(1) =~= s@.skip(i + 1));
            }
            i = i + 1;
        } else {
            let mut w: Vec<char> = Vec::new();
            let mut j: usize = i;
            while j < n && !is_space(s[j])
                invariant
                    n == s@.len(),
                    i <= j <= n,
                    w@ =~= s@.subrange(i as int, j as int),
                    spec_word_len(s@.skip(i as int)) == (j - i) + spec_word_len(s@.skip(j as int)),
                decreases n - j,
            {
                proof {
                    assert(s@.skip(j as int)[0] == s@[j as int]);
                    assert(s@.skip(j as int).skip(1) =~= s@.skip(j + 1));
                }
                w.push(s[j]);
                j = j + 1;
            }
            proof {
                if j < n {
                    assert(s@.skip(j as int)[0] == s@[j as int]);
                }
                assert(spec_word_len(s@.skip(j as int)) == 0);
                assert(spec_word_len(s@.skip(i as int)) == j - i);
                assert(s@.skip(i as int).take(spec_word_len(s@.skip(i as int)) as int)
                    =~= s@.subrange(i as int, j as int));
                assert(s@.skip(i as int).skip(spec_word_len(s@.skip(i as int)) as int) =~= s@.skip(
                    j as int,
                ));
                assert(s@.skip(i as int)[0] == s@[i as int]);
            }
            let ghost prev_out = out@;
            out.push(w);
            proof {
                assert(out@.map_values(|x: Vec<char>| x@) =~= prev_out.map_values(
                    |x: Vec<char>| x@,
                ).push(w@));
                assert(prev_out.map_values(|x: Vec<char>| x@).push(w@) + spec_split_ws(
                    s@.skip(j as int),
                ) =~= prev_out.map_values(|x: Vec<char>| x@) + (seq![w@] + spec_split_ws(
                    s@.skip(j as int),
                )));
            }
            i = j;
        }
    }
    proof {
        assert(s@.skip(n as int) =~= Seq::<char>::empty());
        assert(spec_split_ws(Seq::<char>::empty()) =~= Seq::<Seq<char>>::empty());
        assert(spec_split_ws(s@) =~= out@.map_values(|w: Vec<char>| w@));
        assert(forall|k: int|
            0 <= k < out@.len() ==> out@.map_values(|w: Vec<char>| w@)[k] == out@[k]@);
    }
    out
}

/// The two character sequences are equal.
pub fn eq_chars(a: &Vec<char>, b: &Vec<char>) -> (r: bool)
    ensures
        r == (a@ == b@),
{
    if a.len() != b.len() {
        return false;
    }
    let n = a.len();
    for i in 0..n
        invariant
            n == a@.len(),
            n == b@.len(),
            forall|k: int| 0 <= k < i ==> a@[k] == b@[k],
    {
        if a[i] != b[i] {
            return false;
        }
    }
    assert(a@ =~= b@);
    true
}

/// The characters of `s`, as a vector.
pub fn chars_of_str(s: &str) -> (r: Vec<char>)
    ensures
        r@ == s@,
{
    let n = s.unicode_len();
    let mut out: Vec<char> = Vec::new();
    for i in 0..n
        invariant
            n == s@.len(),
            out@ =~= s@.take(i as int),
    {
        let c = s.get_char(i);
        out.push(c);
        proof {
            assert(out@ =~= s@.take(i + 1));
        }
    }
    proof {
        assert(out@ =~= s@);
    }
    out
}

/// Relies on `String::push`: appends the character to the end of the string.
#[verifier::external_body]
fn push_char(s: &mut String, c: char)
    ensures
        final(s)@ == old(s)@.push(c),
{
    s.push(c)
}

/// A `String` holding exactly the characters of `v`.
pub fn string_from_chars(v: &Vec<char>) -> (r: String)
    ensures
        r@ == v@,
{
    let mut out = String::new();
    let n = v.len();
    for i in 0..n
        invariant
            n == v@.len(),
            out@ =~= v@.take(i as int),
    {
        push_char(&mut out, v[i]);
        proof {
            assert(out@ =~= v@.take(i + 1));
        }
    }
    proof {
        assert(out@ =~= v@);
    }
    out
}

/// Appends the characters of `src` to `dst`.
pub fn append_chars(dst: &mut Vec<char>, src: &Vec<char>)
    ensures
        final(dst)@ == old(dst)@ + src@,
{
    let n = src.len();
    for i in 0..n
        invariant
            n == src@.len(),
            dst@ =~= old(dst)@ + src@.take(i as int),
    {
        dst.push(src[i]);
        proof {
            assert(dst@ =~= old(dst)@ + src@.take(i + 1));
        }
    }
    proof {
        assert(dst@ =~= old(dst)@ + src@);
    }
}

} // verus!
