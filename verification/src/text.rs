//! Character-level text primitives: conversions between strings and character
//! vectors, substring search, non-overlapping replacement, splitting, joining
//! and trimming, each stated against a spec-level definition on `Seq<char>`.
use vstd::prelude::*;
use vstd::slice::slice_subrange;
use vstd::string::StrSliceExecFns;

verus! {

/// Relies on std's `String::push`: appends one character at the end.
pub assume_specification[ String::push ](s: &mut String, c: char)
    ensures
        final(s)@ == old(s)@.push(c),
;

/// The characters of a string, in order, as a vector.
pub fn chars_vec(s: &str) -> (v: Vec<char>)
    ensures
        v@ == s@,
{
    let n = s.unicode_len();
    let mut v: Vec<char> = Vec::new();
    let mut i: usize = 0;
    while i < n
        invariant
            n == s@.len(),
            i <= n,
            v@ == s@.take(i as int),
        decreases n - i,
    {
        let c = s.get_char(i);
        v.push(c);
        proof {
            assert(s@.take(i + 1 as int) =~= s@.take(i as int).push(s@[i as int]));
        }
        i = i + 1;
    }
    proof {
        assert(s@.take(n as int) =~= s@);
    }
    v
}

/// The characters of a vector, in order, as a string.
pub fn string_of(v: &[char]) -> (s: String)
    ensures
        s@ == v@,
{
    let mut s = String::new();
    let mut i: usize = 0;
    while i < v.len()
        invariant
            i <= v@.len(),
            s@ == v@.take(i as int),
        decreases v@.len() - i,
    {
        s.push(v[i]);
        proof {
            assert(v@.take(i + 1 as int) =~= v@.take(i as int).push(v@[i as int]));
        }
        i = i + 1;
    }
    proof {
        assert(v@.take(v@.len() as int) =~= v@);
    }
    s
}

/// The pattern `p` occurs in `s` starting at position `i`.
pub open spec fn match_at(s: Seq<char>, p: Seq<char>, i: int) -> bool {
    0 <= i && i + p.len() <= s.len() && s.subrange(i, i + p.len()) == p
}

/// Some occurrence of `p` lies within `s`.
pub open spec fn occurs(s: Seq<char>, p: Seq<char>) -> bool {
    exists|i: int| match_at(s, p, i)
}

/// Whether `p` occurs in `s` at position `i`.
pub fn starts_with_at(s: &[char], p: &[char], i: usize) -> (b: bool)
    requires
        i <= s@.len(),
    ensures
        b == match_at(s@, p@, i as int),
{
    if s.len() - i < p.len() {
        return false;
    }
    let mut j: usize = 0;
    while j < p.len()
        invariant
            s@.len() <= usize::MAX,
            i + p@.len() <= s@.len(),
            j <= p@.len(),
            forall|k: int| 0 <= k < j ==> s@[i + k] == p@[k],
        decreases p@.len() - j,
    {
        if s[i + j] != p[j] {
            assert(s@.subrange(i as int, i + p@.len()) != p@) by {
                assert(s@.subrange(i as int, i + p@.len())[j as int] != p@[j as int]);
            }
            return false;
        }
        j = j + 1;
    }
    proof {
        assert(s@.subrange(i as int, i + p@.len()) =~= p@);
    }
    true
}

/// Position of the first occurrence of `p` in `s` at or after `from`.
pub fn find_from(s: &[char], p: &[char], from: usize) -> (r: Option<usize>)
    requires
        from <= s@.len(),
        p@.len() > 0,
    ensures
        match r {
            Some(i) => from <= i && match_at(s@, p@, i as int) && forall|k: int|
                from <= k < i ==> !match_at(s@, p@, k),
            None => forall|k: int| from <= k ==> !match_at(s@, p@, k),
        },
{
    let mut i: usize = from;
    while i < s.len()
        invariant
            from <= i <= s@.len(),
            p@.len() > 0,
            forall|k: int| from <= k < i ==> !match_at(s@, p@, k),
        decreases s@.len() - i,
    {
        if starts_with_at(s, p, i) {
            return Some(i);
        }
        i = i + 1;
    }
    None
}

/// A match inside the tail `s.skip(k)` is a match of `s` shifted by `k`.
pub proof fn lemma_match_skip(s: Seq<char>, p: Seq<char>, k: int, j: int)
    requires
        0 <= k <= s.len(),
        0 <= j,
    ensures
        match_at(s.skip(k), p, j) == match_at(s, p, j + k),
{
    if j + p.len() <= s.len() - k {
        assert(s.skip(k).subrange(j, j + p.len() as int) =~= s.subrange(j + k, j + k + p.len()));
    }
}

/// A match of `a + b` lying wholly inside `b` is a match of `b`.
pub proof fn lemma_match_concat_right(a: Seq<char>, b: Seq<char>, p: Seq<char>, j: int)
    requires
        j >= a.len(),
    ensures
        match_at(a + b, p, j) == match_at(b, p, j - a.len()),
{
    if j + p.len() <= a.len() + b.len() {
        assert((a + b).subrange(j, j + p.len() as int) =~= b.subrange(
            j - a.len(),
            j - a.len() + p.len(),
        ));
    }
}

/// Replacement keeps the first character whenever pattern and replacement
/// begin alike and the replacement is not empty.
pub proof fn lemma_replace_first(s: Seq<char>, p: Seq<char>, r: Seq<char>)
    requires
        p.len() > 0,
        r.len() > 0,
        p[0] == r[0],
    ensures
        s.len() > 0 ==> replace_all_spec(s, p, r).len() > 0 && replace_all_spec(s, p, r)[0]
            == s[0],
        s.len() == 0 ==> replace_all_spec(s, p, r).len() == 0,
{
    if s.len() == 0 {
    } else if s.len() < p.len() {
    } else if match_at(s, p, 0) {
        assert(s.subrange(0, p.len() as int)[0] == s[0]);
    } else {
    }
}

/// Position of the first occurrence of `p` at or after `j`, or the length of
/// `s` when there is none.
pub open spec fn find_pos(s: Seq<char>, p: Seq<char>, j: int) -> int
    decreases s.len() - j,
        when 0 <= j <= s.len() && p.len() > 0
{
    if j + p.len() > s.len() {
        s.len() as int
    } else if match_at(s, p, j) {
        j
    } else {
        find_pos(s, p, j + 1)
    }
}

/// The first occurrence lies between `j` and the end, and is an occurrence
/// when it is not the length.
pub proof fn lemma_find_pos_bounds(s: Seq<char>, p: Seq<char>, j: int)
    requires
        0 <= j <= s.len(),
        p.len() > 0,
    ensures
        j <= find_pos(s, p, j) <= s.len(),
        find_pos(s, p, j) < s.len() ==> match_at(s, p, find_pos(s, p, j)),
    decreases s.len() - j,
{
    if j + p.len() > s.len() {
    } else if match_at(s, p, j) {
    } else {
        lemma_find_pos_bounds(s, p, j + 1);
    }
}

/// Finds the first occurrence of `p` at or after `j`; the length of `s` when
/// there is none.
pub fn find_pos_run(s: &[char], p: &[char], j: usize) -> (r: usize)
    requires
        j <= s@.len(),
        p@.len() > 0,
    ensures
        r == find_pos(s@, p@, j as int),
        j <= r <= s@.len(),
    decreases s@.len() - j,
{
    if s.len() - j < p.len() {
        s.len()
    } else if starts_with_at(s, p, j) {
        j
    } else {
        find_pos_run(s, p, j + 1)
    }
}

/// Appends all characters of `s` to `out`.
pub fn push_all(out: &mut Vec<char>, s: &[char])
    ensures
        final(out)@ == old(out)@ + s@,
{
    let mut i: usize = 0;
    while i < s.len()
        invariant
            i <= s@.len(),
            out@ == old(out)@ + s@.take(i as int),
        decreases s@.len() - i,
    {
        let c = s[i];
        out.push(c);
        proof {
            assert(old(out)@ + s@.take(i + 1 as int) =~= (old(out)@ + s@.take(i as int)).push(
                s@[i as int],
            ));
        }
        i = i + 1;
    }
    proof {
        assert(s@.take(s@.len() as int) =~= s@);
    }
}

/// Whether two character vectors hold the same characters.
pub fn eq_chars(a: &[char], b: &[char]) -> (r: bool)
    ensures
        r == (a@ == b@),
{
    if a.len() != b.len() {
        return false;
    }
    let mut i: usize = 0;
    while i < a.len()
        invariant
            a@.len() == b@.len(),
            i <= a@.len(),
            forall|k: int| 0 <= k < i ==> a@[k] == b@[k],
        decreases a@.len() - i,
    {
        if a[i] != b[i] {
            return false;
        }
        i = i + 1;
    }
    proof {
        assert(a@ =~= b@);
    }
    true
}

/// `s` with every occurrence of `p` replaced by `r`: occurrences are taken
/// leftmost first and do not overlap, as `str::replace` takes them.
pub open spec fn replace_all_spec(s: Seq<char>, p: Seq<char>, r: Seq<char>) -> Seq<char>
    decreases s.len(),
        when p.len() > 0
{
    if s.len() < p.len() {
        s
    } else if match_at(s, p, 0) {
        r + replace_all_spec(s.skip(p.len() as int), p, r)
    } else {
        seq![s[0]] + replace_all_spec(s.skip(1), p, r)
    }
}

/// Replacement never lengthens the text when the replacement text is no longer
/// than the pattern, and any change strictly shortens it when the replacement
/// is strictly shorter.
pub proof fn lemma_replace_all_len(s: Seq<char>, p: Seq<char>, r: Seq<char>)
    requires
        p.len() > 0,
        r.len() <= p.len(),
    ensures
        replace_all_spec(s, p, r).len() <= s.len(),
        r.len() < p.len() ==> (replace_all_spec(s, p, r) == s || replace_all_spec(s, p, r).len()
            < s.len()),
    decreases s.len(),
{
    if s.len() < p.len() {
    } else if match_at(s, p, 0) {
        lemma_replace_all_len(s.skip(p.len() as int), p, r);
    } else {
        lemma_replace_all_len(s.skip(1), p, r);
        if replace_all_spec(s.skip(1), p, r) == s.skip(1) {
            assert(seq![s[0]] + s.skip(1) =~= s);
        }
    }
}

/// Replaces every occurrence of `p` in `s` by `r`, leftmost first, without
/// overlap.
pub fn replace_all(s: &[char], p: &[char], r: &[char]) -> (out: Vec<char>)
    requires
        p@.len() > 0,
    ensures
        out@ == replace_all_spec(s@, p@, r@),
    decreases s@.len(),
{
    if s.len() < p.len() {
        let mut out: Vec<char> = Vec::new();
        push_all(&mut out, s);
        return out;
    }
    if starts_with_at(s, p, 0) {
        let rest = replace_all(slice_subrange(s, p.len(), s.len()), p, r);
        let mut out: Vec<char> = Vec::new();
        push_all(&mut out, r);
        push_all(&mut out, rest.as_slice());
        proof {
            assert(s@.subrange(p@.len() as int, s@.len() as int) =~= s@.skip(p@.len() as int));
        }
        out
    } else {
        let rest = replace_all(slice_subrange(s, 1, s.len()), p, r);
        let mut out: Vec<char> = Vec::new();
        out.push(s[0]);
        push_all(&mut out, rest.as_slice());
        proof {
            assert(s@.subrange(1, s@.len() as int) =~= s@.skip(1));
            assert(seq![s@[0]] + rest@ =~= out@);
        }
        out
    }
}

/// `s` split on the separator `sep`: the pieces between the occurrences of
/// `sep`, taken leftmost first without overlap. Splitting the empty text
/// gives one empty piece.
pub open spec fn split_spec(s: Seq<char>, sep: Seq<char>) -> Seq<Seq<char>>
    decreases s.len(),
        when sep.len() > 0
{
    if s.len() == 0 {
        seq![Seq::<char>::empty()]
    } else if match_at(s, sep, 0) {
        seq![Seq::<char>::empty()] + split_spec(s.skip(sep.len() as int), sep)
    } else {
        let rest = split_spec(s.skip(1), sep);
        seq![seq![s[0]] + rest[0]] + rest.skip(1)
    }
}

/// A split always yields at least one piece.
pub proof fn lemma_split_len(s: Seq<char>, sep: Seq<char>)
    requires
        sep.len() > 0,
    ensures
        split_spec(s, sep).len() >= 1,
    decreases s.len(),
{
    if s.len() == 0 {
    } else if match_at(s, sep, 0) {
        lemma_split_len(s.skip(sep.len() as int), sep);
    } else {
        lemma_split_len(s.skip(1), sep);
    }
}

/// Splits `s` on the separator `sep`, leftmost first, without overlap.
pub fn split(s: &[char], sep: &[char]) -> (out: Vec<Vec<char>>)
    requires
        sep@.len() > 0,
    ensures
        out@.map_values(|p: Vec<char>| p@) == split_spec(s@, sep@),
    decreases s@.len(),
{
    if s.len() == 0 {
        let mut out: Vec<Vec<char>> = Vec::new();
        out.push(Vec::new());
        proof {
            assert(out@.map_values(|p: Vec<char>| p@) =~= split_spec(s@, sep@));
        }
        return out;
    }
    if starts_with_at(s, sep, 0) {
        let rest = split(slice_subrange(s, sep.len(), s.len()), sep);
        let mut out: Vec<Vec<char>> = Vec::new();
        out.push(Vec::new());
        let mut rest = rest;
        out.append(&mut rest);
        proof {
            assert(s@.subrange(sep@.len() as int, s@.len() as int) =~= s@.skip(sep@.len() as int));
            assert(out@.map_values(|p: Vec<char>| p@) =~= split_spec(s@, sep@));
        }
        out
    } else {
        let mut rest = split(slice_subrange(s, 1, s.len()), sep);
        proof {
            assert(s@.subrange(1, s@.len() as int) =~= s@.skip(1));
            lemma_split_len(s@.skip(1), sep@);
        }
        let head = rest.remove(0);
        let mut first: Vec<char> = Vec::new();
        first.push(s[0]);
        push_all(&mut first, head.as_slice());
        let mut out: Vec<Vec<char>> = Vec::new();
        out.push(first);
        out.append(&mut rest);
        proof {
            assert(first@ =~= seq![s@[0]] + head@);
            assert(out@.map_values(|p: Vec<char>| p@) =~= split_spec(s@, sep@));
        }
        out
    }
}

/// The pieces of `parts` joined with the separator `sep` between them.
pub open spec fn join_spec(parts: Seq<Seq<char>>, sep: Seq<char>) -> Seq<char>
    decreases parts.len(),
{
    if parts.len() == 0 {
        Seq::<char>::empty()
    } else if parts.len() == 1 {
        parts[0]
    } else {
        parts[0] + sep + join_spec(parts.skip(1), sep)
    }
}

/// Joins the pieces with the separator `sep` between them.
pub fn join(parts: &[Vec<char>], sep: &[char]) -> (out: Vec<char>)
    ensures
        out@ == join_spec(parts@.map_values(|p: Vec<char>| p@), sep@),
    decreases parts@.len(),
{
    let ghost gparts = parts@.map_values(|p: Vec<char>| p@);
    let mut out: Vec<char> = Vec::new();
    if parts.len() == 0 {
        proof {
            assert(out@ =~= join_spec(gparts, sep@));
        }
        return out;
    }
    push_all(&mut out, parts[0].as_slice());
    if parts.len() == 1 {
        proof {
            assert(out@ =~= join_spec(gparts, sep@));
        }
        return out;
    }
    push_all(&mut out, sep);
    let rest = join(slice_subrange(parts, 1, parts.len()), sep);
    push_all(&mut out, rest.as_slice());
    proof {
        assert(parts@.subrange(1, parts@.len() as int).map_values(|p: Vec<char>| p@)
            =~= gparts.skip(1));
        assert(out@ =~= join_spec(gparts, sep@));
    }
    out
}

/// The whitespace characters the cleaner collapses and trims.
pub open spec fn is_wspace(c: char) -> bool {
    c == ' ' || c == '\t' || c == '\r' || c == '\n'
}

/// Whether `c` is one of the whitespace characters.
pub fn wspace(c: char) -> (b: bool)
    ensures
        b == is_wspace(c),
{
    c == ' ' || c == '\t' || c == '\r' || c == '\n'
}

/// `s` without its leading whitespace.
pub open spec fn trim_start_spec(s: Seq<char>) -> Seq<char>
    decreases s.len(),
{
    if s.len() > 0 && is_wspace(s[0]) {
        trim_start_spec(s.skip(1))
    } else {
        s
    }
}

/// `s` without its trailing whitespace.
pub open spec fn trim_end_spec(s: Seq<char>) -> Seq<char>
    decreases s.len(),
{
    if s.len() > 0 && is_wspace(s.last()) {
        trim_end_spec(s.drop_last())
    } else {
        s
    }
}

/// `s` without leading and trailing whitespace.
pub open spec fn trim_spec(s: Seq<char>) -> Seq<char> {
    trim_end_spec(trim_start_spec(s))
}

fn trim_start(s: &[char]) -> (r: &[char])
    ensures
        r@ == trim_start_spec(s@),
    decreases s@.len(),
{
    if s.len() > 0 && wspace(s[0]) {
        let r = trim_start(slice_subrange(s, 1, s.len()));
        proof {
            assert(s@.subrange(1, s@.len() as int) =~= s@.skip(1));
        }
        r
    } else {
        s
    }
}

fn trim_end(s: &[char]) -> (r: &[char])
    ensures
        r@ == trim_end_spec(s@),
    decreases s@.len(),
{
    if s.len() > 0 && wspace(s[s.len() - 1]) {
        let r = trim_end(slice_subrange(s, 0, s.len() - 1));
        proof {
            assert(s@.subrange(0, s@.len() - 1) =~= s@.drop_last());
        }
        r
    } else {
        s
    }
}

/// `s` without leading and trailing whitespace.
pub fn trim(s: &[char]) -> (r: &[char])
    ensures
        r@ == trim_spec(s@),
{
    trim_end(trim_start(s))
}

} // verus!
