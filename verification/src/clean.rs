//! Cleaning passes over LaTeX text: comment stripping, whitespace collapsing,
//! normalization of bibliography entry text, and folding of repeated token
//! runs, all stated against spec-level definitions on `Seq<char>`.
use crate::text::{
    chars_vec, eq_chars, join, join_spec, lemma_replace_all_len, lemma_replace_first, match_at,
    replace_all,
    replace_all_spec, split, split_spec, string_of, trim, trim_spec,
};
use vstd::prelude::*;
use vstd::slice::slice_subrange;

verus! {

/// The font command the cleaner rewrites.
pub open spec fn it_pat() -> Seq<char> {
    seq!['\\', 'i', 't', ' ']
}

/// Its replacement.
pub open spec fn em_pat() -> Seq<char> {
    seq!['\\', 'e', 'm', ' ']
}

/// Every newline, carriage return and tab turned into a space.
pub open spec fn ws_to_space(s: Seq<char>) -> Seq<char> {
    s.map_values(|c: char| if c == '\n' || c == '\r' || c == '\t' { ' ' } else { c })
}

/// Every run of two or more spaces collapsed to a single space.
pub open spec fn collapse_spaces(s: Seq<char>) -> Seq<char>
    decreases s.len(),
{
    if s.len() == 0 {
        s
    } else if s.len() >= 2 && s[0] == ' ' && s[1] == ' ' {
        collapse_spaces(s.skip(1))
    } else {
        seq![s[0]] + collapse_spaces(s.skip(1))
    }
}

/// The full normalization of bibliography entry text: embedded newlines,
/// carriage returns and tabs become spaces, space runs collapse to one space,
/// and the font command `\it ` becomes `\em `, until none of these is left.
pub open spec fn clean_spec(s: Seq<char>) -> Seq<char> {
    replace_all_spec(collapse_spaces(ws_to_space(s)), it_pat(), em_pat())
}

/// Normalizes bibliography entry text: turns embedded newlines, carriage
/// returns and tabs into spaces, collapses space runs to a single space, and
/// replaces the font command `\it ` with `\em `, to a fixed point.
pub fn clean_bib_text(s: &str) -> (r: String)
    ensures
        r@ == clean_spec(s@),
{
    let v = chars_vec(s);
    let out = clean_chars(v.as_slice());
    string_of(out.as_slice())
}

/// The cleaning pass over a character vector.
pub(crate) fn clean_chars(v: &[char]) -> (out: Vec<char>)
    ensures
        out@ == clean_spec(v@),
{
    let mut w: Vec<char> = Vec::new();
    let mut i: usize = 0;
    while i < v.len()
        invariant
            i <= v@.len(),
            w@ == ws_to_space(v@.take(i as int)),
        decreases v@.len() - i,
    {
        let c = v[i];
        if c == '\n' || c == '\r' || c == '\t' {
            w.push(' ');
        } else {
            w.push(c);
        }
        proof {
            assert(ws_to_space(v@.take(i + 1 as int)) =~= ws_to_space(v@.take(i as int)).push(
                if v@[i as int] == '\n' || v@[i as int] == '\r' || v@[i as int] == '\t' {
                    ' '
                } else {
                    v@[i as int]
                },
            ));
        }
        i = i + 1;
    }
    proof {
        assert(v@.take(v@.len() as int) =~= v@);
    }
    let collapsed = collapse(w.as_slice());
    let itv: Vec<char> = vec!['\\', 'i', 't', ' '];
    let emv: Vec<char> = vec!['\\', 'e', 'm', ' '];
    proof {
        assert(itv@ =~= it_pat());
        assert(emv@ =~= em_pat());
    }
    replace_all(collapsed.as_slice(), itv.as_slice(), emv.as_slice())
}

fn collapse(s: &[char]) -> (out: Vec<char>)
    ensures
        out@ == collapse_spaces(s@),
    decreases s@.len(),
{
    if s.len() == 0 {
        Vec::new()
    } else if s.len() >= 2 && s[0] == ' ' && s[1] == ' ' {
        let out = collapse(slice_subrange(s, 1, s.len()));
        proof {
            assert(s@.subrange(1, s@.len() as int) =~= s@.skip(1));
        }
        out
    } else {
        let rest = collapse(slice_subrange(s, 1, s.len()));
        let mut out: Vec<char> = Vec::new();
        out.push(s[0]);
        crate::text::push_all(&mut out, rest.as_slice());
        proof {
            assert(s@.subrange(1, s@.len() as int) =~= s@.skip(1));
            assert(out@ =~= seq![s@[0]] + rest@);
        }
        out
    }
}

/// `tok` written `n` times in a row.
pub open spec fn repeat_seq(tok: Seq<char>, n: nat) -> Seq<char>
    decreases n,
{
    if n == 0 {
        Seq::<char>::empty()
    } else {
        tok + repeat_seq(tok, (n - 1) as nat)
    }
}

/// A repetition one longer appends one more copy at the end.
pub proof fn lemma_repeat_snoc(tok: Seq<char>, n: nat)
    ensures
        repeat_seq(tok, n + 1) == repeat_seq(tok, n) + tok,
    decreases n,
{
    if n == 0 {
        assert(repeat_seq(tok, 1) =~= repeat_seq(tok, 0) + tok);
    } else {
        lemma_repeat_snoc(tok, (n - 1) as nat);
        assert(repeat_seq(tok, n + 1) =~= repeat_seq(tok, n) + tok);
    }
}

/// The length of a repetition.
pub proof fn lemma_repeat_len(tok: Seq<char>, n: nat)
    ensures
        repeat_seq(tok, n).len() == n * tok.len(),
    decreases n,
{
    if n == 0 {
    } else {
        lemma_repeat_len(tok, (n - 1) as nat);
        assert(tok.len() + (n - 1) * tok.len() == n * tok.len()) by (nonlinear_arith);
    }
}

/// Replaces `pat` by the strictly shorter `rep`, and repeats the pass until a
/// pass changes nothing.
pub open spec fn dedup_fix(s: Seq<char>, pat: Seq<char>, rep: Seq<char>) -> Seq<char>
    decreases s.len(),
        when rep.len() < pat.len()
{
    let next = replace_all_spec(s, pat, rep);
    if next == s {
        s
    } else {
        proof {
            lemma_replace_all_len(s, pat, rep);
        }
        dedup_fix(next, pat, rep)
    }
}

/// Runs of `reps` or more copies of `token` folded down: each pass replaces
/// `reps` consecutive copies with `reps - 1` copies, to a fixed point. With
/// `reps` at most one, every copy of `token` is removed; an empty `token`
/// leaves the text unchanged.
pub open spec fn dedup_token_spec(s: Seq<char>, tok: Seq<char>, reps: nat) -> Seq<char> {
    if tok.len() == 0 {
        s
    } else {
        let m: nat = if reps <= 1 {
            1
        } else {
            reps
        };
        dedup_fix(s, repeat_seq(tok, m), repeat_seq(tok, (m - 1) as nat))
    }
}

fn repeat_chars(tok: &[char], n: usize) -> (out: Vec<char>)
    ensures
        out@ == repeat_seq(tok@, n as nat),
{
    let mut out: Vec<char> = Vec::new();
    let mut i: usize = 0;
    while i < n
        invariant
            i <= n,
            out@ == repeat_seq(tok@, i as nat),
        decreases n - i,
    {
        crate::text::push_all(&mut out, tok);
        proof {
            lemma_repeat_snoc(tok@, i as nat);
        }
        i = i + 1;
    }
    out
}

fn dedup_fix_run(start: Vec<char>, pat: &[char], rep: &[char]) -> (out: Vec<char>)
    requires
        rep@.len() < pat@.len(),
    ensures
        out@ == dedup_fix(start@, pat@, rep@),
{
    let mut cur = start;
    loop
        invariant
            rep@.len() < pat@.len(),
            dedup_fix(cur@, pat@, rep@) == dedup_fix(start@, pat@, rep@),
        decreases cur@.len(),
    {
        let next = replace_all(cur.as_slice(), pat, rep);
        if eq_chars(next.as_slice(), cur.as_slice()) {
            return cur;
        }
        proof {
            lemma_replace_all_len(cur@, pat@, rep@);
        }
        cur = next;
    }
}

/// Folds runs of `reps` or more copies of `token` in `s` down to `reps - 1`
/// copies, repeating the pass until nothing changes.
pub fn dedup_token(s: &str, token: &str, reps: usize) -> (r: String)
    ensures
        r@ == dedup_token_spec(s@, token@, reps as nat),
{
    let tok = chars_vec(token);
    if tok.len() == 0 {
        return s.to_owned();
    }
    let m: usize = if reps <= 1 {
        1
    } else {
        reps
    };
    let pat = repeat_chars(tok.as_slice(), m);
    let rep = repeat_chars(tok.as_slice(), m - 1);
    proof {
        lemma_repeat_len(tok@, m as nat);
        lemma_repeat_len(tok@, (m - 1) as nat);
        assert((m - 1) * tok@.len() < m * tok@.len()) by (nonlinear_arith)
            requires
                tok@.len() > 0,
                m >= 1,
        ;
    }
    let start = chars_vec(s);
    let out = dedup_fix_run(start, pat.as_slice(), rep.as_slice());
    string_of(out.as_slice())
}

/// No embedded newline, carriage return or tab.
pub open spec fn no_hard_ws(s: Seq<char>) -> bool {
    forall|i: int| #![auto] 0 <= i < s.len() ==> s[i] != '\n' && s[i] != '\r' && s[i] != '\t'
}

/// No two spaces side by side.
pub open spec fn no_double_space(s: Seq<char>) -> bool {
    forall|i: int| 0 <= i && i + 1 < s.len() ==> !((#[trigger] s[i]) == ' ' && s[i + 1] == ' ')
}

/// Fully normalized entry text: nothing the cleaning pass would still change.
pub open spec fn cleaned(s: Seq<char>) -> bool {
    no_hard_ws(s) && no_double_space(s) && !crate::text::occurs(s, it_pat())
}

proof fn lemma_collapse_first(s: Seq<char>)
    ensures
        s.len() > 0 ==> collapse_spaces(s).len() > 0 && collapse_spaces(s)[0] == s[0],
        s.len() == 0 ==> collapse_spaces(s).len() == 0,
    decreases s.len(),
{
    if s.len() >= 2 && s[0] == ' ' && s[1] == ' ' {
        lemma_collapse_first(s.skip(1));
    }
}

proof fn lemma_collapse_no_hard(s: Seq<char>)
    requires
        no_hard_ws(s),
    ensures
        no_hard_ws(collapse_spaces(s)),
    decreases s.len(),
{
    if s.len() == 0 {
    } else {
        lemma_collapse_no_hard(s.skip(1));
    }
}

proof fn lemma_collapse_no_double(s: Seq<char>)
    ensures
        no_double_space(collapse_spaces(s)),
    decreases s.len(),
{
    if s.len() == 0 {
    } else if s.len() >= 2 && s[0] == ' ' && s[1] == ' ' {
        lemma_collapse_no_double(s.skip(1));
    } else {
        lemma_collapse_no_double(s.skip(1));
        lemma_collapse_first(s.skip(1));
        let out = collapse_spaces(s);
        let rest = collapse_spaces(s.skip(1));
        assert forall|i: int| 0 <= i && i + 1 < out.len() implies !((#[trigger] out[i]) == ' ' && out[i + 1] == ' ') by {
            if i == 0 {
                if s.len() >= 2 {
                    assert(out[1] == rest[0]);
                    assert(rest[0] == s.skip(1)[0]);
                    assert(s.skip(1)[0] == s[1]);
                    assert(!(s[0] == ' ' && s[1] == ' '));
                }
            } else {
                assert(out[i] == rest[i - 1]);
                assert(out[i + 1] == rest[i]);
            }
        }
    }
}

proof fn lemma_replace_em_no_hard(s: Seq<char>)
    requires
        no_hard_ws(s),
    ensures
        no_hard_ws(replace_all_spec(s, it_pat(), em_pat())),
    decreases s.len(),
{
    let p = it_pat();
    let r = em_pat();
    let out = replace_all_spec(s, p, r);
    if s.len() < p.len() {
    } else if match_at(s, p, 0) {
        lemma_replace_em_no_hard(s.skip(p.len() as int));
        let rest = replace_all_spec(s.skip(p.len() as int), p, r);
        assert forall|i: int| 0 <= i < out.len() implies out[i] != '\n' && out[i] != '\r'
            && out[i] != '\t' by {
            if i >= r.len() {
                assert(out[i] == rest[i - r.len()]);
            }
        }
    } else {
        lemma_replace_em_no_hard(s.skip(1));
        let rest = replace_all_spec(s.skip(1), p, r);
        assert forall|i: int| 0 <= i < out.len() implies out[i] != '\n' && out[i] != '\r'
            && out[i] != '\t' by {
            if i >= 1 {
                assert(out[i] == rest[i - 1]);
            }
        }
    }
}

proof fn lemma_replace_em_no_double(s: Seq<char>)
    requires
        no_double_space(s),
    ensures
        no_double_space(replace_all_spec(s, it_pat(), em_pat())),
    decreases s.len(),
{
    let p = it_pat();
    let r = em_pat();
    let out = replace_all_spec(s, p, r);
    if s.len() < p.len() {
    } else if match_at(s, p, 0) {
        lemma_replace_em_no_double(s.skip(p.len() as int));
        let tail = s.skip(p.len() as int);
        let rest = replace_all_spec(tail, p, r);
        lemma_replace_first(tail, p, r);
        assert(s.subrange(0, p.len() as int)[3] == s[3]);
        assert forall|i: int| 0 <= i && i + 1 < out.len() implies !((#[trigger] out[i]) == ' ' && out[i + 1] == ' ') by {
            if i + 1 < r.len() {
            } else if i + 1 == r.len() {
                assert(out[i + 1] == rest[0]);
                assert(rest[0] == tail[0]);
                assert(tail[0] == s[p.len() as int]);
                assert(s[3] == ' ' && !(s[3] == ' ' && s[4] == ' '));
            } else {
                assert(out[i] == rest[i - r.len()]);
                assert(out[i + 1] == rest[i + 1 - r.len()]);
            }
        }
    } else {
        lemma_replace_em_no_double(s.skip(1));
        let rest = replace_all_spec(s.skip(1), p, r);
        lemma_replace_first(s.skip(1), p, r);
        assert forall|i: int| 0 <= i && i + 1 < out.len() implies !((#[trigger] out[i]) == ' ' && out[i + 1] == ' ') by {
            if i == 0 {
                assert(out[1] == rest[0]);
                assert(rest[0] == s.skip(1)[0]);
                assert(s.skip(1)[0] == s[1]);
            } else {
                assert(out[i] == rest[i - 1]);
                assert(out[i + 1] == rest[i]);
            }
        }
    }
}

proof fn lemma_replace_it_head(t: Seq<char>)
    requires
        replace_all_spec(t, it_pat(), em_pat()).len() >= 3,
        replace_all_spec(t, it_pat(), em_pat())[0] == 'i',
        replace_all_spec(t, it_pat(), em_pat())[1] == 't',
        replace_all_spec(t, it_pat(), em_pat())[2] == ' ',
    ensures
        t.len() >= 3 && t[0] == 'i' && t[1] == 't' && t[2] == ' ',
{
    let p = it_pat();
    let r = em_pat();
    let o = replace_all_spec(t, p, r);
    if t.len() < p.len() {
    } else if match_at(t, p, 0) {
        assert(o[0] == r[0]);
        assert(false);
    } else {
        let o1 = replace_all_spec(t.skip(1), p, r);
        assert(o[0] == t[0]);
        assert(o1[0] == o[1] && o1[1] == o[2]);
        lemma_replace_first(t.skip(1), p, r);
        assert(t.skip(1).len() > 0 && t.skip(1)[0] == o1[0]);
        assert(t[1] == 't');
        let t1 = t.skip(1);
        if t1.len() < p.len() {
            assert(o1 == t1);
            assert(t1[1] == ' ');
            assert(t[2] == ' ');
        } else if match_at(t1, p, 0) {
            assert(t1.subrange(0, p.len() as int)[0] == t1[0]);
            assert(false);
        } else {
            let o2 = replace_all_spec(t1.skip(1), p, r);
            assert(o2[0] == o1[1]);
            lemma_replace_first(t1.skip(1), p, r);
            assert(t1.skip(1).len() > 0 && t1.skip(1)[0] == o2[0]);
            assert(t1.skip(1)[0] == t[2]);
            assert(t[2] == ' ');
        }
    }
}

proof fn lemma_replace_em_no_it(s: Seq<char>)
    ensures
        !crate::text::occurs(replace_all_spec(s, it_pat(), em_pat()), it_pat()),
    decreases s.len(),
{
    let p = it_pat();
    let r = em_pat();
    let out = replace_all_spec(s, p, r);
    if s.len() < p.len() {
        assert forall|j: int| !match_at(out, p, j) by {}
    } else if match_at(s, p, 0) {
        lemma_replace_em_no_it(s.skip(p.len() as int));
        let rest = replace_all_spec(s.skip(p.len() as int), p, r);
        assert forall|j: int| !match_at(out, p, j) by {
            if match_at(out, p, j) {
                if j >= r.len() {
                    crate::text::lemma_match_concat_right(r, rest, p, j);
                } else {
                    assert(out.subrange(j, j + p.len() as int)[0] == out[j]);
                    assert(out.subrange(j, j + p.len() as int)[1] == out[j + 1]);
                    assert(out[j] == p[0]);
                    assert(out[j + 1] == p[1]);
                    assert(j == 0 ==> out[1] == r[1]);
                    assert(j == 1 ==> out[1] == r[1]);
                    assert(j == 2 ==> out[2] == r[2]);
                    assert(j == 3 ==> out[3] == r[3]);
                }
            }
        }
    } else {
        lemma_replace_em_no_it(s.skip(1));
        let rest = replace_all_spec(s.skip(1), p, r);
        assert forall|j: int| !match_at(out, p, j) by {
            if match_at(out, p, j) {
                if j >= 1 {
                    crate::text::lemma_match_concat_right(seq![s[0]], rest, p, j);
                } else {
                    assert(out.subrange(0, p.len() as int)[0] == out[0]);
                    assert(out.subrange(0, p.len() as int)[1] == out[1]);
                    assert(out.subrange(0, p.len() as int)[2] == out[2]);
                    assert(out.subrange(0, p.len() as int)[3] == out[3]);
                    assert(out[0] == s[0] && s[0] == '\\');
                    assert(rest[0] == out[1] && rest[1] == out[2] && rest[2] == out[3]);
                    lemma_replace_it_head(s.skip(1));
                    assert(s.skip(1)[0] == s[1] && s.skip(1)[1] == s[2] && s.skip(1)[2] == s[3]);
                    assert(s.subrange(0, p.len() as int) =~= p);
                }
            }
        }
    }
}

proof fn lemma_ws_to_space_id(s: Seq<char>)
    requires
        no_hard_ws(s),
    ensures
        ws_to_space(s) == s,
{
    assert(ws_to_space(s) =~= s);
}

proof fn lemma_collapse_id(s: Seq<char>)
    requires
        no_double_space(s),
    ensures
        collapse_spaces(s) == s,
    decreases s.len(),
{
    if s.len() == 0 {
    } else {
        lemma_collapse_id(s.skip(1));
        assert(seq![s[0]] + s.skip(1) =~= s);
    }
}

proof fn lemma_replace_id(s: Seq<char>, p: Seq<char>, r: Seq<char>)
    requires
        p.len() > 0,
        !crate::text::occurs(s, p),
    ensures
        replace_all_spec(s, p, r) == s,
    decreases s.len(),
{
    if s.len() < p.len() {
    } else if match_at(s, p, 0) {
        assert(false);
    } else {
        assert forall|j: int| !match_at(s.skip(1), p, j) by {
            if 0 <= j {
                crate::text::lemma_match_skip(s, p, 1, j);
            }
        }
        lemma_replace_id(s.skip(1), p, r);
        assert(seq![s[0]] + s.skip(1) =~= s);
    }
}

/// The cleaning pass leaves nothing it would still change.
pub proof fn lemma_clean_cleaned(s: Seq<char>)
    ensures
        cleaned(clean_spec(s)),
{
    let w = ws_to_space(s);
    assert(no_hard_ws(w));
    let c = collapse_spaces(w);
    lemma_collapse_no_hard(w);
    lemma_collapse_no_double(w);
    lemma_replace_em_no_hard(c);
    lemma_replace_em_no_double(c);
    lemma_replace_em_no_it(c);
}

/// On fully normalized text the cleaning pass changes nothing.
pub proof fn lemma_cleaned_fixed(s: Seq<char>)
    requires
        cleaned(s),
    ensures
        clean_spec(s) == s,
{
    lemma_ws_to_space_id(s);
    lemma_collapse_id(s);
    lemma_replace_id(s, it_pat(), em_pat());
}

/// Cleaning entry text twice gives what cleaning it once gives.
pub proof fn lemma_clean_idempotent(s: Seq<char>)
    ensures
        clean_spec(clean_spec(s)) == clean_spec(s),
{
    lemma_clean_cleaned(s);
    lemma_cleaned_fixed(clean_spec(s));
}

/// Position of the first comment sign at or after `j` in a line: a `%` not
/// directly preceded by a backslash (an escaped `\%` is kept as text). The
/// line's length when there is none.
pub open spec fn comment_from(t: Seq<char>, j: int) -> int
    decreases t.len() - j,
        when 0 <= j <= t.len()
{
    if j >= t.len() {
        t.len() as int
    } else if t[j] == '%' && (j == 0 || t[j - 1] != '\\') {
        j
    } else {
        comment_from(t, j + 1)
    }
}

/// The first comment sign lies between `j` and the end of the line.
pub proof fn lemma_comment_from_bounds(t: Seq<char>, j: int)
    requires
        0 <= j <= t.len(),
    ensures
        j <= comment_from(t, j) <= t.len(),
    decreases t.len() - j,
{
    if j >= t.len() {
    } else if t[j] == '%' && (j == 0 || t[j - 1] != '\\') {
    } else {
        lemma_comment_from_bounds(t, j + 1);
    }
}

/// A line is dropped entirely when, after trimming, it starts with `%`.
pub open spec fn line_kept(line: Seq<char>) -> bool {
    let t = trim_spec(line);
    !(t.len() > 0 && t[0] == '%')
}

/// What a kept line contributes: the trimmed line cut before its first
/// unescaped `%`, trimmed again.
pub open spec fn line_content(line: Seq<char>) -> Seq<char> {
    let t = trim_spec(line);
    trim_spec(t.take(comment_from(t, 0)))
}

/// The contents of the kept lines, in order.
pub open spec fn kept_lines(lines: Seq<Seq<char>>) -> Seq<Seq<char>>
    decreases lines.len(),
{
    if lines.len() == 0 {
        Seq::<Seq<char>>::empty()
    } else {
        let rest = kept_lines(lines.drop_last());
        if line_kept(lines.last()) {
            rest + seq![line_content(lines.last())]
        } else {
            rest
        }
    }
}

/// The lines of `s`: the pieces between newlines, without a final empty piece
/// when the text ends in a newline. The empty text has no lines.
pub open spec fn lines_spec(s: Seq<char>) -> Seq<Seq<char>> {
    if s.len() == 0 {
        Seq::<Seq<char>>::empty()
    } else {
        let parts = split_spec(s, seq!['\n']);
        if parts.last().len() == 0 {
            parts.drop_last()
        } else {
            parts
        }
    }
}

/// The comment-stripping pass over a whole file's text: each line is trimmed;
/// lines that then start with `%` are dropped; each kept line is cut before
/// its first unescaped `%` and trimmed again; the kept lines are joined with
/// newlines; runs of three or more newlines fold down to two.
pub open spec fn strip_tex_spec(s: Seq<char>) -> Seq<char> {
    dedup_token_spec(join_spec(kept_lines(lines_spec(s)), seq!['\n']), seq!['\n'], 3)
}

fn comment_from_run(t: &[char], j: usize) -> (r: usize)
    requires
        j <= t@.len(),
    ensures
        r == comment_from(t@, j as int),
        j <= r <= t@.len(),
    decreases t@.len() - j,
{
    if j >= t.len() {
        t.len()
    } else if t[j] == '%' && (j == 0 || t[j - 1] != '\\') {
        j
    } else {
        comment_from_run(t, j + 1)
    }
}

/// Strips LaTeX comments from raw file text: drops comment-only lines, cuts
/// trailing comments (keeping escaped `\%`), trims every line, and folds blank
/// line runs, as the pass before citation and bibliography extraction.
pub fn strip_tex_source(s: &str) -> (r: String)
    ensures
        r@ == strip_tex_spec(s@),
{
    let v = chars_vec(s);
    let nl: Vec<char> = vec!['\n'];
    proof {
        assert(nl@ =~= seq!['\n']);
    }
    let mut parts: Vec<Vec<char>> = Vec::new();
    if v.len() > 0 {
        parts = split(v.as_slice(), nl.as_slice());
        proof {
            crate::text::lemma_split_len(v@, nl@);
        }
        if parts[parts.len() - 1].len() == 0 {
            let _ = parts.pop();
            proof {
                assert(parts@.map_values(|p: Vec<char>| p@) =~= split_spec(v@, nl@).drop_last());
            }
        }
    }
    let ghost glines = lines_spec(v@);
    proof {
        assert(parts@.map_values(|p: Vec<char>| p@) =~= glines);
    }
    let mut kept: Vec<Vec<char>> = Vec::new();
    let mut i: usize = 0;
    while i < parts.len()
        invariant
            i <= parts@.len(),
            parts@.map_values(|p: Vec<char>| p@) == glines,
            kept@.map_values(|p: Vec<char>| p@) == kept_lines(glines.take(i as int)),
        decreases parts@.len() - i,
    {
        let ghost gline = glines[i as int];
        let t = trim(parts[i].as_slice());
        if !(t.len() > 0 && t[0] == '%') {
            let cpos = comment_from_run(t, 0);
            let content = trim(slice_subrange(t, 0, cpos));
            let mut cv: Vec<char> = Vec::new();
            crate::text::push_all(&mut cv, content);
            proof {
                assert(t@.subrange(0, cpos as int) =~= trim_spec(gline).take(
                    comment_from(trim_spec(gline), 0),
                ));
            }
            kept.push(cv);
        }
        proof {
            assert(glines.take(i + 1 as int).drop_last() =~= glines.take(i as int));
            assert(glines.take(i + 1 as int).last() == gline);
            if line_kept(gline) {
                assert(kept@.map_values(|p: Vec<char>| p@) =~= kept_lines(glines.take(i as int))
                    + seq![line_content(gline)]);
            }
        }
        i = i + 1;
    }
    proof {
        assert(glines.take(glines.len() as int) =~= glines);
    }
    let joined = join(kept.as_slice(), nl.as_slice());
    let pat: Vec<char> = vec!['\n', '\n', '\n'];
    let rep: Vec<char> = vec!['\n', '\n'];
    proof {
        assert(repeat_seq(seq!['\n'], 3) =~= pat@) by {
            reveal_with_fuel(repeat_seq, 4);
        }
        assert(repeat_seq(seq!['\n'], 2) =~= rep@) by {
            reveal_with_fuel(repeat_seq, 3);
        }
    }
    let out = dedup_fix_run(joined, pat.as_slice(), rep.as_slice());
    string_of(out.as_slice())
}

/// Whitespace trimmed, then one pair of braces around the whole value removed,
/// if there is one.
pub open spec fn trim_braces_spec(s: Seq<char>) -> Seq<char> {
    let t = trim_spec(s);
    if t.len() >= 2 && t[0] == '{' && t.last() == '}' {
        t.subrange(1, t.len() - 1)
    } else {
        t
    }
}

/// Trims whitespace and removes one pair of braces wrapped around the whole
/// value, as BibTeX field values carry them.
pub fn trim_braces(s: &[char]) -> (out: Vec<char>)
    ensures
        out@ == trim_braces_spec(s@),
{
    let t = trim(s);
    let mut out: Vec<char> = Vec::new();
    if t.len() >= 2 && t[0] == '{' && t[t.len() - 1] == '}' {
        crate::text::push_all(&mut out, slice_subrange(t, 1, t.len() - 1));
    } else {
        crate::text::push_all(&mut out, t);
    }
    out
}

} // verus!
