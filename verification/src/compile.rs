//! Compiling BibTeX records into a `thebibliography` environment: field
//! extraction with brace-depth scanning, author and volume formatting, and
//! assembly of the whole output document.
use crate::bibtex::{Entry, EntryModel};
use crate::clean::{clean_spec, trim_braces_spec};
use crate::extract::end_tok;
use crate::keymap::assoc_map;
use crate::rewrite::dec_str;
use crate::text::{
    chars_vec, find_pos, find_pos_run, join, join_spec, push_all, split, split_spec, string_of,
    trim, trim_spec,
};
use vstd::prelude::*;
use vstd::slice::slice_subrange;

verus! {

/// The compile tool's options, as the command line carries them.
pub struct CompileCli {
    /// The BibTeX file to read.
    pub file: String,
    /// Where the result goes; a sentinel means standard output.
    pub output: String,
    /// Whether each entry carries its publisher segment.
    pub publisher: bool,
    /// Whether entries are ordered by year, most recent first.
    pub sort: bool,
    /// Whether to emit an enumerated list instead of a bibliography.
    pub aslist: bool,
    /// A prefix added to each generated citation label.
    pub cite_prefix: String,
}

/// Why a bibliography cannot be compiled.
#[derive(Debug)]
pub enum CompileError {
    /// An entry lacks a field the format needs.
    MissingField { entry: String, field: String },
    /// Sorting was asked for and an entry's year is not a number.
    BadYear { entry: String },
}

/// Position of the first `tok` at brace level `at`, scanning from `j` with
/// the given starting level; the length when there is none. The level rises
/// at `{` and falls at `}`, checked after the token test.
pub open spec fn fct_from(s: Seq<char>, j: int, level: int, tok: char, at: int) -> int
    decreases s.len() - j,
        when 0 <= j <= s.len()
{
    if j >= s.len() {
        s.len() as int
    } else if level == at && s[j] == tok {
        j
    } else {
        fct_from(
            s,
            j + 1,
            level + (if s[j] == '{' {
                1int
            } else if s[j] == '}' {
                -1int
            } else {
                0int
            }),
            tok,
            at,
        )
    }
}

/// The found position lies between `j` and the end.
pub proof fn lemma_fct_bounds(s: Seq<char>, j: int, level: int, tok: char, at: int)
    requires
        0 <= j <= s.len(),
    ensures
        j <= fct_from(s, j, level, tok, at) <= s.len(),
    decreases s.len() - j,
{
    if j >= s.len() {
    } else if level == at && s[j] == tok {
    } else {
        lemma_fct_bounds(
            s,
            j + 1,
            level + (if s[j] == '{' {
                1int
            } else if s[j] == '}' {
                -1int
            } else {
                0int
            }),
            tok,
            at,
        );
    }
}

fn fct_run(s: &[char], j: usize, level: i128, tok: char, at: i128) -> (r: usize)
    requires
        j <= s@.len(),
        -(j as int) <= level <= j as int,
    ensures
        r as int == fct_from(s@, j as int, level as int, tok, at as int),
        j <= r <= s@.len(),
    decreases s@.len() - j,
{
    if j >= s.len() {
        s.len()
    } else if level == at && s[j] == tok {
        j
    } else {
        let nl: i128 = if s[j] == '{' {
            level + 1
        } else if s[j] == '}' {
            level - 1
        } else {
            level
        };
        fct_run(s, j + 1, nl, tok, at)
    }
}

/// Position of the first `tok` in `sub` at brace depth `at`, counting `{` up
/// and `}` down from depth zero.
pub fn find_closing_token(sub: &str, tok: char, at: i128) -> (r: Option<usize>)
    ensures
        match r {
            Some(i) => i as int == fct_from(sub@, 0, 0, tok, at as int) && i < sub@.len(),
            None => fct_from(sub@, 0, 0, tok, at as int) == sub@.len(),
        },
{
    let v = chars_vec(sub);
    let i = fct_run(v.as_slice(), 0, 0, tok, at);
    if i < v.len() {
        Some(i)
    } else {
        None
    }
}

/// One raw record read from the front of `s`: the position after it, its
/// type, its key and its field region, all trimmed. Nothing when no complete
/// record is left.
pub open spec fn gbr_spec(s: Seq<char>) -> Option<(int, Seq<char>, Seq<char>, Seq<char>)> {
    let a = find_pos(s, seq!['@'], 0);
    if a >= s.len() {
        None
    } else {
        let o1 = find_pos(s, seq!['{'], a + 1);
        if o1 >= s.len() {
            None
        } else {
            let o2 = find_pos(s, seq![','], o1 + 1);
            if o2 >= s.len() {
                None
            } else {
                let o3 = fct_from(s, o2 + 1, 0, '}', 0);
                if o3 >= s.len() {
                    None
                } else {
                    Some(
                        (
                            o3 + 1,
                            trim_spec(s.subrange(a + 1, o1)),
                            trim_spec(s.subrange(o1 + 1, o2)),
                            trim_spec(s.subrange(o2 + 1, o3)),
                        ),
                    )
                }
            }
        }
    }
}

fn gbr_run(s: &[char]) -> (r: Option<(usize, Vec<char>, Vec<char>, Vec<char>)>)
    ensures
        match r {
            Some(q) => gbr_spec(s@) matches Some(t) && q.0 as int == t.0 && q.1@ == t.1 && q.2@
                == t.2 && q.3@ == t.3 && 0 < q.0 <= s@.len(),
            None => gbr_spec(s@) is None,
        },
{
    let atv: Vec<char> = vec!['@'];
    let obv: Vec<char> = vec!['{'];
    let cmv: Vec<char> = vec![','];
    proof {
        assert(atv@ =~= seq!['@']);
        assert(obv@ =~= seq!['{']);
        assert(cmv@ =~= seq![',']);
    }
    let a = find_pos_run(s, atv.as_slice(), 0);
    if a >= s.len() {
        return None;
    }
    let o1 = find_pos_run(s, obv.as_slice(), a + 1);
    if o1 >= s.len() {
        return None;
    }
    let o2 = find_pos_run(s, cmv.as_slice(), o1 + 1);
    if o2 >= s.len() {
        return None;
    }
    let o3 = fct_run(s, o2 + 1, 0, '}', 0);
    if o3 >= s.len() {
        return None;
    }
    let etype = trim(slice_subrange(s, a + 1, o1));
    let key = trim(slice_subrange(s, o1 + 1, o2));
    let fields = trim(slice_subrange(s, o2 + 1, o3));
    let mut ev: Vec<char> = Vec::new();
    push_all(&mut ev, etype);
    let mut kv: Vec<char> = Vec::new();
    push_all(&mut kv, key);
    let mut fv: Vec<char> = Vec::new();
    push_all(&mut fv, fields);
    Some((o3 + 1, ev, kv, fv))
}

/// The front record of `data` in raw form: the unread rest, the record type,
/// the key, and the field region; nothing when no complete record is left.
pub fn get_bibentry_raw(data: &str) -> (r: Option<(String, String, String, String)>)
    ensures
        match r {
            Some(q) => gbr_spec(data@) matches Some(t) && q.0@ == data@.skip(t.0) && q.1@ == t.1
                && q.2@ == t.2 && q.3@ == t.3,
            None => gbr_spec(data@) is None,
        },
{
    let v = chars_vec(data);
    match gbr_run(v.as_slice()) {
        Some(q) => {
            let rest = string_of(slice_subrange(v.as_slice(), q.0, v.len()));
            proof {
                assert(v@.subrange(q.0 as int, v@.len() as int) =~= data@.skip(q.0 as int));
            }
            Some((rest, string_of(q.1.as_slice()), string_of(q.2.as_slice()), string_of(
                q.3.as_slice(),
            )))
        },
        None => None,
    }
}

/// The fields of a record's field region folded into `m`, in order, a later
/// duplicate winning: each field name runs to the first `=`, its value to
/// the first comma at brace depth zero.
pub open spec fn fields_into(m: Map<Seq<char>, Seq<char>>, fs: Seq<char>) -> Map<
    Seq<char>,
    Seq<char>,
>
    decreases fs.len(),
{
    let e = find_pos(fs, seq!['='], 0);
    if e >= fs.len() {
        m
    } else {
        let name = trim_spec(fs.take(e));
        let rest = fs.skip(e + 1);
        let f = fct_from(rest, 0, 0, ',', 0);
        let value = trim_braces_spec(rest.take(f));
        let m2 = m.insert(name, value);
        proof {
            crate::text::lemma_find_pos_bounds(fs, seq!['='], 0);
            lemma_fct_bounds(rest, 0, 0, ',', 0);
        }
        if f < rest.len() {
            fields_into(m2, rest.skip(f + 1))
        } else {
            fields_into(m2, rest)
        }
    }
}

fn fields_run(ps: Vec<(String, String)>, fs: &[char]) -> (r: Vec<(String, String)>)
    ensures
        assoc_map(r@) == fields_into(assoc_map(ps@), fs@),
    decreases fs@.len(),
{
    let eqv: Vec<char> = vec!['='];
    proof {
        assert(eqv@ =~= seq!['=']);
    }
    let e = find_pos_run(fs, eqv.as_slice(), 0);
    if e >= fs.len() {
        return ps;
    }
    let namec = trim(slice_subrange(fs, 0, e));
    let name = string_of(namec);
    let rest = slice_subrange(fs, e + 1, fs.len());
    proof {
        assert(fs@.subrange(0, e as int) =~= fs@.take(e as int));
        assert(fs@.subrange(e + 1, fs@.len() as int) =~= fs@.skip(e + 1));
    }
    let f = fct_run(rest, 0, 0, ',', 0);
    let valc = crate::clean::trim_braces(slice_subrange(rest, 0, f));
    let value = string_of(valc.as_slice());
    proof {
        assert(rest@.subrange(0, f as int) =~= rest@.take(f as int));
    }
    let mut ps2 = ps;
    let ghost before = ps2@;
    ps2.push((name, value));
    proof {
        assert(ps2@.drop_last() =~= before);
    }
    if f < rest.len() {
        let tail = slice_subrange(rest, f + 1, rest.len());
        proof {
            assert(rest@.subrange(f + 1, rest@.len() as int) =~= rest@.skip(f + 1));
        }
        fields_run(ps2, tail)
    } else {
        fields_run(ps2, rest)
    }
}

/// The records of a BibTeX source as the compile tool reads them, front to
/// back.
pub open spec fn compile_entries_spec(s: Seq<char>) -> Seq<EntryModel>
    decreases s.len(),
{
    match gbr_spec(s) {
        None => Seq::<EntryModel>::empty(),
        Some(t) => {
            proof {
                crate::text::lemma_find_pos_bounds(s, seq!['@'], 0);
            }
            if 0 < t.0 <= s.len() {
                seq![
                    EntryModel {
                        name: t.2,
                        kind: t.1,
                        params: fields_into(Map::<Seq<char>, Seq<char>>::empty(), t.3),
                    },
                ] + compile_entries_spec(s.skip(t.0))
            } else {
                Seq::<EntryModel>::empty()
            }
        },
    }
}

fn compile_entries_run(s: &[char]) -> (es: Vec<Entry>)
    ensures
        es@.map_values(|e: Entry| e@) == compile_entries_spec(s@),
    decreases s@.len(),
{
    match gbr_run(s) {
        None => {
            let es: Vec<Entry> = Vec::new();
            proof {
                assert(es@.map_values(|e: Entry| e@) =~= compile_entries_spec(s@));
            }
            es
        },
        Some(q) => {
            let empty_ps: Vec<(String, String)> = Vec::new();
            proof {
                assert(assoc_map(empty_ps@) =~= Map::<Seq<char>, Seq<char>>::empty());
            }
            let params = fields_run(empty_ps, q.3.as_slice());
            let entry = Entry { name: string_of(q.2.as_slice()), kind: string_of(
                q.1.as_slice(),
            ), params };
            let mut es: Vec<Entry> = Vec::new();
            es.push(entry);
            let tail = slice_subrange(s, q.0, s.len());
            proof {
                assert(tail@ =~= s@.skip(q.0 as int));
            }
            let mut rest = compile_entries_run(tail);
            es.append(&mut rest);
            proof {
                assert(es@.map_values(|e: Entry| e@) =~= compile_entries_spec(s@));
            }
            es
        },
    }
}

/// Reads every record of `data` the way the compile tool does.
pub fn parse_bibliography(data: &str) -> (es: Vec<Entry>)
    ensures
        es@.map_values(|e: Entry| e@) == compile_entries_spec(data@),
{
    let v = chars_vec(data);
    compile_entries_run(v.as_slice())
}

/// The `author` field name.
pub open spec fn author_key() -> Seq<char> {
    seq!['a', 'u', 't', 'h', 'o', 'r']
}

/// The `title` field name.
pub open spec fn title_key() -> Seq<char> {
    seq!['t', 'i', 't', 'l', 'e']
}

/// The `year` field name.
pub open spec fn year_key() -> Seq<char> {
    seq!['y', 'e', 'a', 'r']
}

/// The `journal` field name.
pub open spec fn journal_key() -> Seq<char> {
    seq!['j', 'o', 'u', 'r', 'n', 'a', 'l']
}

/// The `publisher` field name.
pub open spec fn publisher_key() -> Seq<char> {
    seq!['p', 'u', 'b', 'l', 'i', 's', 'h', 'e', 'r']
}

/// The `pages` field name.
pub open spec fn pages_key() -> Seq<char> {
    seq!['p', 'a', 'g', 'e', 's']
}

/// The `number` field name.
pub open spec fn number_key() -> Seq<char> {
    seq!['n', 'u', 'm', 'b', 'e', 'r']
}

/// The `volume` field name.
pub open spec fn volume_key() -> Seq<char> {
    seq!['v', 'o', 'l', 'u', 'm', 'e']
}

/// The field value of `e` under the name spelled by `k`, if declared.
fn get_param(e: &Entry, k: &[char]) -> (r: Option<String>)
    ensures
        match r {
            Some(v) => e@.params.contains_key(k@) && e@.params[k@] == v@,
            None => !e@.params.contains_key(k@),
        },
{
    let n = e.params.len();
    let mut i: usize = n;
    while i > 0
        invariant
            i <= n,
            n == e.params@.len(),
            forall|l: int| i <= l < n ==> (#[trigger] e.params@[l]).0@ != k@,
        decreases i,
    {
        i = i - 1;
        let kc = chars_vec(e.params[i].0.as_str());
        if crate::text::eq_chars(kc.as_slice(), k) {
            let v = e.params[i].1.clone();
            proof {
                crate::keymap::lemma_assoc_found(e.params@, i as int);
            }
            return Some(v);
        }
    }
    proof {
        crate::keymap::lemma_assoc_absent(e.params@, k@);
    }
    None
}

/// An ASCII lowercase letter raised to its uppercase form; anything else
/// unchanged.
pub open spec fn upper_char(c: char) -> char {
    if 'a' <= c && c <= 'z' {
        ((c as int) - 32) as char
    } else {
        c
    }
}

/// The initial a word contributes: its first character, uppercased; nothing
/// for an empty word.
pub open spec fn initial(w: Seq<char>) -> Seq<char> {
    if w.len() == 0 {
        w
    } else {
        seq![upper_char(w[0])]
    }
}

/// The separator between authors in a BibTeX author field.
pub open spec fn and_sep() -> Seq<char> {
    seq![' ', 'a', 'n', 'd', ' ']
}

/// The separator between an author's last and first names.
pub open spec fn comma_sep() -> Seq<char> {
    seq![',', ' ']
}

/// One author formatted: the last name alone, or the first name's initials,
/// each followed by a dot, before the last name.
pub open spec fn format_author_spec(parts: Seq<Seq<char>>) -> Seq<char> {
    if parts.len() == 0 {
        Seq::<char>::empty()
    } else if parts.len() == 1 {
        parts[0]
    } else {
        join_spec(
            split_spec(parts[1], seq![' ']).map_values(|w: Seq<char>| initial(w)),
            seq!['.', ' '],
        ) + seq!['.', ' '] + parts[0]
    }
}

/// The whole author list formatted: authors split on ` and `, each formatted,
/// the list set in small capitals with an ampersand before the last author.
pub open spec fn format_all_author_spec(a: Seq<char>) -> Seq<char> {
    let authors = split_spec(a, and_sep()).map_values(
        |p: Seq<char>| format_author_spec(split_spec(p, comma_sep())),
    );
    if authors.len() == 0 {
        Seq::<char>::empty()
    } else if authors.len() == 1 {
        seq!['\\', 't', 'e', 'x', 't', 's', 'c', '{'] + authors[0] + seq!['}']
    } else {
        seq!['\\', 't', 'e', 'x', 't', 's', 'c', '{'] + join_spec(
            authors.take(authors.len() - 1),
            comma_sep(),
        ) + seq![' ', '\\', '&', ' '] + authors.last() + seq!['}']
    }
}

fn upper_run(c: char) -> (r: char)
    ensures
        r == upper_char(c),
{
    if 'a' <= c && c <= 'z' {
        (((c as u32) as u8) - 32) as char
    } else {
        c
    }
}

fn format_author_chars(parts: &Vec<Vec<char>>) -> (r: Vec<char>)
    ensures
        r@ == format_author_spec(parts@.map_values(|p: Vec<char>| p@)),
{
    let ghost pm = parts@.map_values(|p: Vec<char>| p@);
    if parts.len() == 0 {
        return Vec::new();
    }
    if parts.len() == 1 {
        let mut r: Vec<char> = Vec::new();
        push_all(&mut r, parts[0].as_slice());
        return r;
    }
    let spv: Vec<char> = vec![' '];
    proof {
        assert(spv@ =~= seq![' ']);
    }
    let words = split(parts[1].as_slice(), spv.as_slice());
    let ghost wm = split_spec(pm[1], seq![' ']);
    let mut inits: Vec<Vec<char>> = Vec::new();
    let mut i: usize = 0;
    while i < words.len()
        invariant
            i <= words@.len(),
            words@.map_values(|w: Vec<char>| w@) == wm,
            inits@.map_values(|w: Vec<char>| w@) == wm.take(i as int).map_values(
                |w: Seq<char>| initial(w),
            ),
        decreases words@.len() - i,
    {
        let ghost before = inits@.map_values(|w: Vec<char>| w@);
        let mut iv: Vec<char> = Vec::new();
        if words[i].len() > 0 {
            let u = upper_run(words[i][0]);
            iv.push(u);
        }
        proof {
            assert(words@[i as int]@ == wm[i as int]);
            assert(iv@ =~= initial(wm[i as int]));
        }
        inits.push(iv);
        proof {
            assert(inits@.map_values(|w: Vec<char>| w@) =~= before.push(initial(wm[i as int])));
            assert(wm.take(i + 1).map_values(|w: Seq<char>| initial(w)) =~= wm.take(
                i as int,
            ).map_values(|w: Seq<char>| initial(w)).push(initial(wm[i as int])));
        }
        i = i + 1;
    }
    proof {
        assert(wm.take(wm.len() as int) =~= wm);
    }
    let dotsp: Vec<char> = vec!['.', ' '];
    proof {
        assert(dotsp@ =~= seq!['.', ' ']);
    }
    let joined = join(inits.as_slice(), dotsp.as_slice());
    let mut r: Vec<char> = Vec::new();
    push_all(&mut r, joined.as_slice());
    r.push('.');
    r.push(' ');
    push_all(&mut r, parts[0].as_slice());
    proof {
        assert(r@ =~= format_author_spec(pm));
    }
    r
}

/// Formats one author's `Last, First` name as initials before the last name.
pub fn format_author(auth: &Vec<String>) -> (r: String)
    ensures
        r@ == format_author_spec(auth@.map_values(|s: String| s@)),
{
    let mut parts: Vec<Vec<char>> = Vec::new();
    let mut i: usize = 0;
    while i < auth.len()
        invariant
            i <= auth@.len(),
            parts@.map_values(|p: Vec<char>| p@) == auth@.map_values(|s: String| s@).take(
                i as int,
            ),
        decreases auth@.len() - i,
    {
        let ghost before = parts@.map_values(|p: Vec<char>| p@);
        let c = chars_vec(auth[i].as_str());
        parts.push(c);
        proof {
            let am = auth@.map_values(|s: String| s@);
            assert(parts@.map_values(|p: Vec<char>| p@) =~= before.push(am[i as int]));
            assert(am.take(i + 1) =~= am.take(i as int).push(am[i as int]));
        }
        i = i + 1;
    }
    proof {
        let am = auth@.map_values(|s: String| s@);
        assert(am.take(am.len() as int) =~= am);
    }
    let r = format_author_chars(&parts);
    string_of(r.as_slice())
}

fn format_all_author_chars(a: &[char]) -> (r: Vec<char>)
    ensures
        r@ == format_all_author_spec(a@),
{
    let andv: Vec<char> = vec![' ', 'a', 'n', 'd', ' '];
    let comv: Vec<char> = vec![',', ' '];
    proof {
        assert(andv@ =~= and_sep());
        assert(comv@ =~= comma_sep());
    }
    let raw = split(a, andv.as_slice());
    let ghost rm = split_spec(a@, and_sep());
    let ghost am = rm.map_values(
        |p: Seq<char>| format_author_spec(split_spec(p, comma_sep())),
    );
    let mut authors: Vec<Vec<char>> = Vec::new();
    let mut i: usize = 0;
    while i < raw.len()
        invariant
            i <= raw@.len(),
            comv@ == comma_sep(),
            raw@.map_values(|p: Vec<char>| p@) == rm,
            am == rm.map_values(|p: Seq<char>| format_author_spec(split_spec(p, comma_sep()))),
            authors@.map_values(|p: Vec<char>| p@) == am.take(i as int),
        decreases raw@.len() - i,
    {
        let ghost before = authors@.map_values(|p: Vec<char>| p@);
        let nameparts = split(raw[i].as_slice(), comv.as_slice());
        let fa = format_author_chars(&nameparts);
        proof {
            assert(raw@[i as int]@ == rm[i as int]);
            assert(fa@ == am[i as int]);
        }
        authors.push(fa);
        proof {
            assert(authors@.map_values(|p: Vec<char>| p@) =~= before.push(am[i as int]));
            assert(am.take(i + 1) =~= am.take(i as int).push(am[i as int]));
        }
        i = i + 1;
    }
    proof {
        assert(am.take(am.len() as int) =~= am);
    }
    if authors.len() == 0 {
        let r: Vec<char> = Vec::new();
        proof {
            assert(r@ =~= format_all_author_spec(a@));
        }
        return r;
    }
    let sc: Vec<char> = vec!['\\', 't', 'e', 'x', 't', 's', 'c', '{'];
    proof {
        assert(sc@ =~= seq!['\\', 't', 'e', 'x', 't', 's', 'c', '{']);
    }
    let mut r: Vec<char> = Vec::new();
    push_all(&mut r, sc.as_slice());
    if authors.len() == 1 {
        push_all(&mut r, authors[0].as_slice());
        r.push('}');
        proof {
            assert(r@ =~= format_all_author_spec(a@));
        }
        return r;
    }
    let last = match authors.pop() {
        Some(v) => v,
        None => {
            proof {
                assert(false);
            }
            Vec::new()
        },
    };
    let ghost kept = authors@.map_values(|p: Vec<char>| p@);
    proof {
        assert(kept =~= am.take(am.len() - 1));
    }
    let joined = join(authors.as_slice(), comv.as_slice());
    push_all(&mut r, joined.as_slice());
    let amp: Vec<char> = vec![' ', '\\', '&', ' '];
    proof {
        assert(amp@ =~= seq![' ', '\\', '&', ' ']);
    }
    push_all(&mut r, amp.as_slice());
    push_all(&mut r, last.as_slice());
    r.push('}');
    proof {
        assert(last@ == am.last());
        assert(r@ =~= format_all_author_spec(a@));
    }
    r
}

/// Formats a BibTeX author field: the formatted authors in small capitals,
/// an ampersand before the last.
pub fn format_all_author(a: &str) -> (r: String)
    ensures
        r@ == format_all_author_spec(a@),
{
    let v = chars_vec(a);
    let r = format_all_author_chars(v.as_slice());
    string_of(r.as_slice())
}

/// The page, number and volume values an entry declares, in that order.
pub open spec fn vol_list(m: Map<Seq<char>, Seq<char>>) -> Seq<Seq<char>> {
    let s0 = Seq::<Seq<char>>::empty();
    let s1 = if m.contains_key(pages_key()) {
        s0.push(m[pages_key()])
    } else {
        s0
    };
    let s2 = if m.contains_key(number_key()) {
        s1.push(m[number_key()])
    } else {
        s1
    };
    if m.contains_key(volume_key()) {
        s2.push(m[volume_key()])
    } else {
        s2
    }
}

/// The volume segment: the volume in bold, then the number in parentheses,
/// then the pages after a colon, each taken from the back of the declared
/// list, so missing fields shift the remaining ones forward.
pub open spec fn format_volume_spec(m: Map<Seq<char>, Seq<char>>) -> Seq<char> {
    let xs = vol_list(m);
    (if xs.len() >= 1 {
        seq!['\\', 't', 'e', 'x', 't', 'b', 'f', '{'] + xs[xs.len() - 1] + seq!['}']
    } else {
        Seq::<char>::empty()
    }) + (if xs.len() >= 2 {
        seq!['('] + xs[xs.len() - 2] + seq![')']
    } else {
        Seq::<char>::empty()
    }) + (if xs.len() >= 3 {
        seq![':'] + xs[xs.len() - 3]
    } else {
        Seq::<char>::empty()
    })
}

/// Formats an entry's volume, number and pages segment.
pub fn format_volume(b: &Entry) -> (r: String)
    ensures
        r@ == format_volume_spec(b@.params),
{
    let pk: Vec<char> = vec!['p', 'a', 'g', 'e', 's'];
    let nk: Vec<char> = vec!['n', 'u', 'm', 'b', 'e', 'r'];
    let vk: Vec<char> = vec!['v', 'o', 'l', 'u', 'm', 'e'];
    proof {
        assert(pk@ =~= pages_key());
        assert(nk@ =~= number_key());
        assert(vk@ =~= volume_key());
    }
    let mut xs: Vec<Vec<char>> = Vec::new();
    match get_param(b, pk.as_slice()) {
        Some(v) => {
            xs.push(chars_vec(v.as_str()));
        },
        None => {},
    }
    match get_param(b, nk.as_slice()) {
        Some(v) => {
            xs.push(chars_vec(v.as_str()));
        },
        None => {},
    }
    match get_param(b, vk.as_slice()) {
        Some(v) => {
            xs.push(chars_vec(v.as_str()));
        },
        None => {},
    }
    proof {
        assert(xs@.map_values(|p: Vec<char>| p@) =~= vol_list(b@.params));
    }
    let mut r: Vec<char> = Vec::new();
    if xs.len() >= 1 {
        let bf: Vec<char> = vec!['\\', 't', 'e', 'x', 't', 'b', 'f', '{'];
        proof {
            assert(bf@ =~= seq!['\\', 't', 'e', 'x', 't', 'b', 'f', '{']);
        }
        push_all(&mut r, bf.as_slice());
        push_all(&mut r, xs[xs.len() - 1].as_slice());
        r.push('}');
    }
    if xs.len() >= 2 {
        r.push('(');
        push_all(&mut r, xs[xs.len() - 2].as_slice());
        r.push(')');
    }
    if xs.len() >= 3 {
        r.push(':');
        push_all(&mut r, xs[xs.len() - 3].as_slice());
    }
    proof {
        assert(r@ =~= format_volume_spec(b@.params));
    }
    string_of(r.as_slice())
}

/// A year value with an optional leading plus sign stripped.
pub open spec fn year_digits(s: Seq<char>) -> Seq<char> {
    if s.len() > 0 && s[0] == '+' {
        s.skip(1)
    } else {
        s
    }
}

/// A nonempty run of decimal digits.
pub open spec fn is_digits(s: Seq<char>) -> bool {
    s.len() > 0 && forall|i: int| 0 <= i < s.len() ==> '0' <= #[trigger] s[i] && s[i] <= '9'
}

/// The number the digits spell.
pub open spec fn digits_val(s: Seq<char>) -> nat
    decreases s.len(),
{
    if s.len() == 0 {
        0
    } else {
        digits_val(s.drop_last()) * 10 + (if s.last() as int >= 48 {
            (s.last() as int - 48) as nat
        } else {
            0
        })
    }
}

/// A year field the sort can use: digits, fitting the machine's numbers.
pub open spec fn year_ok(s: Seq<char>) -> bool {
    is_digits(year_digits(s)) && digits_val(year_digits(s)) <= u64::MAX
}

/// The numeric year of an entry.
pub open spec fn entry_year(e: EntryModel) -> nat {
    digits_val(year_digits(e.params[year_key()]))
}

/// A longer digit prefix spells no smaller a number.
proof fn lemma_digits_grow(s: Seq<char>, j: int)
    requires
        is_digits(s),
        0 <= j <= s.len(),
    ensures
        digits_val(s.take(j)) <= digits_val(s),
    decreases s.len() - j,
{
    if j < s.len() {
        lemma_digits_grow(s, j + 1);
        assert(s.take(j + 1).drop_last() =~= s.take(j));
        assert(s.take(j + 1).last() == s[j]);
    } else {
        assert(s.take(j) =~= s);
    }
}

/// Reads a year as a number: digits after an optional plus sign; nothing for
/// anything else or a value too large for the machine.
pub fn parse_year(s: &str) -> (r: Option<u64>)
    ensures
        match r {
            Some(v) => year_ok(s@) && v as nat == digits_val(year_digits(s@)),
            None => !year_ok(s@),
        },
{
    let v = chars_vec(s);
    let start: usize = if v.len() > 0 && v[0] == '+' {
        1
    } else {
        0
    };
    let ghost yd = year_digits(s@);
    proof {
        assert(v@.skip(start as int) =~= yd);
    }
    if v.len() == start {
        return None;
    }
    let mut acc: u64 = 0;
    let mut i: usize = start;
    while i < v.len()
        invariant
            start <= i <= v@.len(),
            v@ == s@,
            yd == year_digits(s@),
            yd == v@.skip(start as int),
            start <= v@.len(),
            forall|k: int| 0 <= k < i - start ==> '0' <= #[trigger] yd[k] && yd[k] <= '9',
            acc as nat == digits_val(yd.take(i - start)),
        decreases v@.len() - i,
    {
        let c = v[i];
        if !('0' <= c && c <= '9') {
            proof {
                assert(yd[i - start] == c);
                assert(!is_digits(yd));
            }
            return None;
        }
        let d: u64 = (((c as u32) as u8) - 48) as u64;
        if acc > (u64::MAX - d) / 10 {
            proof {
                assert(yd.take(i - start + 1).drop_last() =~= yd.take(i - start));
                assert(yd.take(i - start + 1).last() == yd[i - start]);
                assert(digits_val(yd.take(i - start + 1)) > u64::MAX);
                if is_digits(yd) {
                    lemma_digits_grow(yd, i - start + 1);
                }
            }
            return None;
        }
        acc = acc * 10 + d;
        proof {
            assert(yd.take(i - start + 1).drop_last() =~= yd.take(i - start));
            assert(yd.take(i - start + 1).last() == yd[i - start]);
        }
        i = i + 1;
    }
    proof {
        assert(yd.take(yd.len() as int) =~= yd);
        assert(is_digits(yd));
    }
    Some(acc)
}

/// An entry that can be formatted: it declares author, title and year.
pub open spec fn entry_ok(e: EntryModel) -> bool {
    &&& e.params.contains_key(author_key())
    &&& e.params.contains_key(title_key())
    &&& e.params.contains_key(year_key())
}

/// A bibliography the compiler accepts: every entry declares the needed
/// fields, and when sorting is asked, every year is numeric.
pub open spec fn compile_ok(es: Seq<EntryModel>, sort: bool) -> bool {
    &&& forall|i: int| 0 <= i < es.len() ==> entry_ok(#[trigger] es[i])
    &&& sort ==> forall|i: int| 0 <= i < es.len() ==> year_ok((#[trigger] es[i]).params[year_key()])
}

/// One formatted output line for entry number `n`.
pub open spec fn entry_line_spec(
    e: EntryModel,
    n: nat,
    publisher: bool,
    aslist: bool,
    prefix: Seq<char>,
) -> Seq<char> {
    let bibkey = if aslist {
        seq!['\\', 'i', 't', 'e', 'm', '[', '('] + dec_str(n + 1) + seq![')', ']', ' ']
    } else {
        seq!['\\', 'b', 'i', 'b', 'i', 't', 'e', 'm', '{'] + prefix + e.name + seq!['}']
    };
    let authors = format_all_author_spec(e.params[author_key()]);
    let t = seq!['\\', 't', 'e', 'x', 't', 'i', 't', '{'] + e.params[title_key()] + seq![
        '}',
        ',',
    ];
    let y = seq!['('] + e.params[year_key()] + seq![')'];
    let p = if e.params.contains_key(publisher_key()) {
        seq!['-', ' '] + e.params[publisher_key()]
    } else {
        Seq::<char>::empty()
    };
    let j = if e.params.contains_key(journal_key()) {
        e.params[journal_key()]
    } else {
        Seq::<char>::empty()
    };
    let vol = format_volume_spec(e.params);
    let elements: Seq<Seq<char>> = if publisher {
        seq![bibkey, authors, t, j, vol, p, y]
    } else {
        seq![bibkey, authors, t, j, vol, y]
    };
    clean_spec(join_spec(elements, seq![' '])) + seq!['\n', '\n']
}

/// The formatted lines of all entries, in order.
pub open spec fn entry_lines_spec(
    es: Seq<EntryModel>,
    publisher: bool,
    aslist: bool,
    prefix: Seq<char>,
) -> Seq<char>
    decreases es.len(),
{
    if es.len() == 0 {
        Seq::<char>::empty()
    } else {
        entry_lines_spec(es.drop_last(), publisher, aslist, prefix) + entry_line_spec(
            es.last(),
            (es.len() - 1) as nat,
            publisher,
            aslist,
            prefix,
        )
    }
}

/// The whole compiled document: the environment's opening, the entry lines,
/// and its closing.
pub open spec fn compile_output_spec(
    es: Seq<EntryModel>,
    publisher: bool,
    aslist: bool,
    prefix: Seq<char>,
) -> Seq<char> {
    let header = if aslist {
        seq![
            '\\', 'b', 'e', 'g', 'i', 'n', '{', 'e', 'n', 'u', 'm', 'e', 'r', 'a', 't', 'e',
            '}', '\n',
        ]
    } else {
        crate::extract::begin_tok() + seq!['{'] + dec_str(crate::bib_size_spec(es.len())) + seq![
            '}',
            '\n',
            '\n',
        ]
    };
    let footer = if aslist {
        seq!['\\', 'e', 'n', 'd', '{', 'e', 'n', 'u', 'm', 'e', 'r', 'a', 't', 'e', '}']
    } else {
        end_tok()
    };
    header + entry_lines_spec(es, publisher, aslist, prefix) + footer
}

/// How the emitted entry order relates to the parsed one: identical without
/// sorting; with sorting, the same entries, year never rising.
pub open spec fn sorted_rel(es: Seq<EntryModel>, sorted: Seq<EntryModel>, sort: bool) -> bool {
    if !sort {
        sorted == es
    } else {
        &&& sorted.len() == es.len()
        &&& forall|j: int| 0 <= j < sorted.len() ==> es.contains(#[trigger] sorted[j])
        &&& forall|l: int| 0 <= l < es.len() ==> sorted.contains(#[trigger] es[l])
        &&& forall|k: int|
            0 <= k < sorted.len() - 1 ==> entry_year(#[trigger] sorted[k]) >= entry_year(
                sorted[k + 1],
            )
    }
}

fn year_insert_pos(ys: &Vec<u64>, y: u64, j: usize) -> (r: usize)
    requires
        j <= ys@.len(),
        forall|a: int| 0 <= a < j ==> (#[trigger] ys@[a]) >= y,
    ensures
        j <= r <= ys@.len(),
        forall|a: int| 0 <= a < r ==> (#[trigger] ys@[a]) >= y,
        r < ys@.len() ==> ys@[r as int] < y,
    decreases ys@.len() - j,
{
    if j >= ys.len() {
        return j;
    }
    if ys[j] < y {
        j
    } else {
        year_insert_pos(ys, y, j + 1)
    }
}

fn sort_entries_desc(es: Vec<Entry>, ys: Vec<u64>) -> (r: Vec<Entry>)
    requires
        ys@.len() == es@.len(),
        forall|i: int| 0 <= i < es@.len() ==> (#[trigger] ys@[i]) as nat == entry_year(es@[i]@),
    ensures
        sorted_rel(es@.map_values(|e: Entry| e@), r@.map_values(|e: Entry| e@), true),
{
    let ghost em = es@.map_values(|e: Entry| e@);
    let mut out: Vec<Entry> = Vec::new();
    let mut oys: Vec<u64> = Vec::new();
    let mut i: usize = 0;
    while i < es.len()
        invariant
            i <= es@.len(),
            em == es@.map_values(|e: Entry| e@),
            ys@.len() == es@.len(),
            forall|l: int| 0 <= l < es@.len() ==> (#[trigger] ys@[l]) as nat == entry_year(
                es@[l]@,
            ),
            oys@.len() == out@.len(),
            out@.len() == i,
            forall|k: int| 0 <= k < out@.len() ==> (#[trigger] oys@[k]) as nat == entry_year(
                out@[k]@,
            ),
            forall|jj: int| 0 <= jj < out@.len() ==> em.contains((#[trigger] out@[jj])@),
            forall|l: int|
                0 <= l < i ==> exists|jj: int| 0 <= jj < out@.len() && out@[jj]@ == (
                #[trigger] em[l]),
            forall|k: int| 0 <= k < out@.len() - 1 ==> (#[trigger] oys@[k]) >= oys@[k + 1],
        decreases es@.len() - i,
    {
        let y = ys[i];
        let e = Entry {
            name: es[i].name.clone(),
            kind: es[i].kind.clone(),
            params: clone_params(&es[i].params),
        };
        proof {
            assert(e@ == em[i as int]);
            assert(em.contains(em[i as int]));
        }
        let j = year_insert_pos(&oys, y, 0);
        let ghost out_before = out@;
        let ghost oys_before = oys@;
        out.insert(j, e);
        oys.insert(j, y);
        proof {
            assert forall|a: int| 0 <= a < j implies out@[a] == out_before[a] && oys@[a]
                == oys_before[a] by {}
            assert forall|b: int| j < b < out@.len() implies out@[b] == out_before[b - 1]
                && oys@[b] == oys_before[b - 1] by {}
            assert(out@[j as int] == e && oys@[j as int] == y);
            assert forall|k: int| 0 <= k < out@.len() - 1 implies (#[trigger] oys@[k]) >= oys@[k
                + 1] by {
                if k + 1 < j {
                } else if k + 1 == j {
                    assert(oys@[k] == oys_before[k]);
                } else if k == j {
                    assert(oys@[k + 1] == oys_before[k]);
                } else {
                }
            }
            assert forall|jj: int| 0 <= jj < out@.len() implies em.contains(
                (#[trigger] out@[jj])@,
            ) by {
                if jj < j {
                    assert(out@[jj] == out_before[jj]);
                } else if jj > j {
                    assert(out@[jj] == out_before[jj - 1]);
                }
            }
            assert forall|l: int| 0 <= l < i + 1 implies exists|jj: int|
                0 <= jj < out@.len() && out@[jj]@ == (#[trigger] em[l]) by {
                if l < i {
                    let jj = choose|jj: int| 0 <= jj < out_before.len() && out_before[jj]@ == em[l];
                    if jj < j {
                        assert(out@[jj]@ == em[l]);
                    } else {
                        assert(out@[jj + 1]@ == em[l]);
                    }
                } else {
                    assert(out@[j as int]@ == em[l]);
                }
            }
        }
        i = i + 1;
    }
    proof {
        let rm = out@.map_values(|e: Entry| e@);
        assert forall|j: int| 0 <= j < rm.len() implies em.contains(#[trigger] rm[j]) by {
            assert(rm[j] == out@[j]@);
        }
        assert forall|l: int| 0 <= l < em.len() implies rm.contains(#[trigger] em[l]) by {
            let jj = choose|jj: int| 0 <= jj < out@.len() && out@[jj]@ == em[l];
            assert(rm[jj] == em[l]);
        }
        assert forall|k: int| 0 <= k < rm.len() - 1 implies entry_year(#[trigger] rm[k])
            >= entry_year(rm[k + 1]) by {
            assert(rm[k] == out@[k]@ && rm[k + 1] == out@[k + 1]@);
            assert(oys@[k] as nat == entry_year(out@[k]@));
            assert(oys@[k + 1] as nat == entry_year(out@[k + 1]@));
            assert(oys@[k] >= oys@[k + 1]);
        }
    }
    out
}

fn clone_params(ps: &Vec<(String, String)>) -> (r: Vec<(String, String)>)
    ensures
        r@ == ps@,
{
    let mut r: Vec<(String, String)> = Vec::new();
    let mut i: usize = 0;
    while i < ps.len()
        invariant
            i <= ps@.len(),
            r@ == ps@.take(i as int),
        decreases ps@.len() - i,
    {
        r.push((ps[i].0.clone(), ps[i].1.clone()));
        proof {
            assert(ps@.take(i + 1) =~= ps@.take(i as int).push(ps@[i as int]));
        }
        i = i + 1;
    }
    proof {
        assert(ps@.take(ps@.len() as int) =~= ps@);
    }
    r
}

fn bib_size_wide(n: u64) -> (size: u128)
    ensures
        size as nat == crate::bib_size_spec(n as nat),
{
    let mut size: u128 = 0;
    while size < n as u128
        invariant
            crate::bib_size_from(size as nat, n as nat) == crate::bib_size_spec(n as nat),
        decreases (if size >= n as u128 { 0 } else { n as u128 - size }),
    {
        size = size * 10 + 9;
    }
    size
}

fn dec_chars_wide(n: u128) -> (v: Vec<char>)
    ensures
        v@ == dec_str(n as nat),
    decreases n,
{
    if n < 10 {
        let d = ((n as u8) + 48) as char;
        let v: Vec<char> = vec![d];
        proof {
            assert(v@ =~= dec_str(n as nat));
        }
        v
    } else {
        let mut v = dec_chars_wide(n / 10);
        let d = (((n % 10) as u8) + 48) as char;
        v.push(d);
        v
    }
}

fn entry_line_run(e: &Entry, n: usize, publisher: bool, aslist: bool, prefix: &[char]) -> (r: Vec<
    char,
>)
    requires
        entry_ok(e@),
        n < usize::MAX,
    ensures
        r@ == entry_line_spec(e@, n as nat, publisher, aslist, prefix@),
{
    let mut bibkey: Vec<char> = Vec::new();
    if aslist {
        let io: Vec<char> = vec!['\\', 'i', 't', 'e', 'm', '[', '('];
        proof {
            assert(io@ =~= seq!['\\', 'i', 't', 'e', 'm', '[', '(']);
        }
        push_all(&mut bibkey, io.as_slice());
        let dv = crate::rewrite::dec_chars(n + 1);
        push_all(&mut bibkey, dv.as_slice());
        bibkey.push(')');
        bibkey.push(']');
        bibkey.push(' ');
    } else {
        let bo: Vec<char> = vec!['\\', 'b', 'i', 'b', 'i', 't', 'e', 'm', '{'];
        proof {
            assert(bo@ =~= seq!['\\', 'b', 'i', 'b', 'i', 't', 'e', 'm', '{']);
        }
        push_all(&mut bibkey, bo.as_slice());
        push_all(&mut bibkey, prefix);
        let nc = chars_vec(e.name.as_str());
        push_all(&mut bibkey, nc.as_slice());
        bibkey.push('}');
    }
    let ak: Vec<char> = vec!['a', 'u', 't', 'h', 'o', 'r'];
    let tk: Vec<char> = vec!['t', 'i', 't', 'l', 'e'];
    let yk: Vec<char> = vec!['y', 'e', 'a', 'r'];
    let jk: Vec<char> = vec!['j', 'o', 'u', 'r', 'n', 'a', 'l'];
    let pbk: Vec<char> = vec!['p', 'u', 'b', 'l', 'i', 's', 'h', 'e', 'r'];
    proof {
        assert(ak@ =~= author_key());
        assert(tk@ =~= title_key());
        assert(yk@ =~= year_key());
        assert(jk@ =~= journal_key());
        assert(pbk@ =~= publisher_key());
    }
    let author_val = match get_param(e, ak.as_slice()) {
        Some(v) => v,
        None => {
            proof {
                assert(false);
            }
            String::new()
        },
    };
    let authors = format_all_author_chars(chars_vec(author_val.as_str()).as_slice());
    let title_val = match get_param(e, tk.as_slice()) {
        Some(v) => v,
        None => {
            proof {
                assert(false);
            }
            String::new()
        },
    };
    let mut t: Vec<char> = Vec::new();
    let ti: Vec<char> = vec!['\\', 't', 'e', 'x', 't', 'i', 't', '{'];
    proof {
        assert(ti@ =~= seq!['\\', 't', 'e', 'x', 't', 'i', 't', '{']);
    }
    push_all(&mut t, ti.as_slice());
    push_all(&mut t, chars_vec(title_val.as_str()).as_slice());
    t.push('}');
    t.push(',');
    let year_val = match get_param(e, yk.as_slice()) {
        Some(v) => v,
        None => {
            proof {
                assert(false);
            }
            String::new()
        },
    };
    let mut y: Vec<char> = Vec::new();
    y.push('(');
    push_all(&mut y, chars_vec(year_val.as_str()).as_slice());
    y.push(')');
    let mut p: Vec<char> = Vec::new();
    match get_param(e, pbk.as_slice()) {
        Some(v) => {
            p.push('-');
            p.push(' ');
            push_all(&mut p, chars_vec(v.as_str()).as_slice());
        },
        None => {},
    }
    let mut jj: Vec<char> = Vec::new();
    match get_param(e, jk.as_slice()) {
        Some(v) => {
            push_all(&mut jj, chars_vec(v.as_str()).as_slice());
        },
        None => {},
    }
    let vols = format_volume(e);
    let vol = chars_vec(vols.as_str());
    let mut elements: Vec<Vec<char>> = Vec::new();
    elements.push(bibkey);
    elements.push(authors);
    elements.push(t);
    elements.push(jj);
    elements.push(vol);
    if publisher {
        elements.push(p);
    }
    elements.push(y);
    let spv: Vec<char> = vec![' '];
    proof {
        assert(spv@ =~= seq![' ']);
        let em = e@;
        let gelems: Seq<Seq<char>> = if publisher {
            seq![
                (if aslist {
                    seq!['\\', 'i', 't', 'e', 'm', '[', '('] + dec_str((n + 1) as nat) + seq![
                        ')',
                        ']',
                        ' ',
                    ]
                } else {
                    seq!['\\', 'b', 'i', 'b', 'i', 't', 'e', 'm', '{'] + prefix@ + em.name + seq![
                        '}',
                    ]
                }),
                format_all_author_spec(em.params[author_key()]),
                seq!['\\', 't', 'e', 'x', 't', 'i', 't', '{'] + em.params[title_key()] + seq![
                    '}',
                    ',',
                ],
                (if em.params.contains_key(journal_key()) {
                    em.params[journal_key()]
                } else {
                    Seq::<char>::empty()
                }),
                format_volume_spec(em.params),
                (if em.params.contains_key(publisher_key()) {
                    seq!['-', ' '] + em.params[publisher_key()]
                } else {
                    Seq::<char>::empty()
                }),
                seq!['('] + em.params[year_key()] + seq![')'],
            ]
        } else {
            seq![
                (if aslist {
                    seq!['\\', 'i', 't', 'e', 'm', '[', '('] + dec_str((n + 1) as nat) + seq![
                        ')',
                        ']',
                        ' ',
                    ]
                } else {
                    seq!['\\', 'b', 'i', 'b', 'i', 't', 'e', 'm', '{'] + prefix@ + em.name + seq![
                        '}',
                    ]
                }),
                format_all_author_spec(em.params[author_key()]),
                seq!['\\', 't', 'e', 'x', 't', 'i', 't', '{'] + em.params[title_key()] + seq![
                    '}',
                    ',',
                ],
                (if em.params.contains_key(journal_key()) {
                    em.params[journal_key()]
                } else {
                    Seq::<char>::empty()
                }),
                format_volume_spec(em.params),
                seq!['('] + em.params[year_key()] + seq![')'],
            ]
        };
        assert(elements@.map_values(|p: Vec<char>| p@) =~~= gelems);
    }
    let joined = join(elements.as_slice(), spv.as_slice());
    let mut line = crate::clean::clean_chars(joined.as_slice());
    line.push('\n');
    line.push('\n');
    proof {
        assert(line@ =~= entry_line_spec(e@, n as nat, publisher, aslist, prefix@));
    }
    line
}

/// Compiles parsed-and-ordered entries into the output document.
fn compile_format(es: &Vec<Entry>, publisher: bool, aslist: bool, prefix: &[char]) -> (r: String)
    requires
        forall|i: int| 0 <= i < es@.len() ==> entry_ok((#[trigger] es@[i])@),
    ensures
        r@ == compile_output_spec(
            es@.map_values(|e: Entry| e@),
            publisher,
            aslist,
            prefix@,
        ),
{
    let ghost em = es@.map_values(|e: Entry| e@);
    let mut out: Vec<char> = Vec::new();
    if aslist {
        let eo: Vec<char> = vec![
            '\\', 'b', 'e', 'g', 'i', 'n', '{', 'e', 'n', 'u', 'm', 'e', 'r', 'a', 't', 'e',
            '}', '\n',
        ];
        proof {
            assert(eo@ =~= seq![
                '\\', 'b', 'e', 'g', 'i', 'n', '{', 'e', 'n', 'u', 'm', 'e', 'r', 'a', 't',
                'e', '}', '\n',
            ]);
        }
        push_all(&mut out, eo.as_slice());
    } else {
        let bt = crate::extract::begin_tok_vec();
        push_all(&mut out, bt.as_slice());
        out.push('{');
        let size = bib_size_wide(es.len() as u64);
        let dv = dec_chars_wide(size);
        push_all(&mut out, dv.as_slice());
        out.push('}');
        out.push('\n');
        out.push('\n');
    }
    let ghost header = out@;
    let n = es.len();
    let mut i: usize = 0;
    while i < n
        invariant
            n == es@.len(),
            i <= es@.len(),
            em == es@.map_values(|e: Entry| e@),
            forall|l: int| 0 <= l < es@.len() ==> entry_ok((#[trigger] es@[l])@),
            out@ == header + entry_lines_spec(em.take(i as int), publisher, aslist, prefix@),
        decreases es@.len() - i,
    {
        let line = entry_line_run(&es[i], i, publisher, aslist, prefix);
        push_all(&mut out, line.as_slice());
        proof {
            assert(em.take(i + 1).drop_last() =~= em.take(i as int));
            assert(em.take(i + 1).last() == em[i as int]);
            assert(em.take(i + 1).len() - 1 == i);
        }
        i = i + 1;
    }
    proof {
        assert(em.take(em.len() as int) =~= em);
    }
    if aslist {
        let ec: Vec<char> = vec![
            '\\', 'e', 'n', 'd', '{', 'e', 'n', 'u', 'm', 'e', 'r', 'a', 't', 'e', '}',
        ];
        proof {
            assert(ec@ =~= seq![
                '\\', 'e', 'n', 'd', '{', 'e', 'n', 'u', 'm', 'e', 'r', 'a', 't', 'e', '}',
            ]);
        }
        push_all(&mut out, ec.as_slice());
    } else {
        let et = crate::extract::end_tok_vec();
        push_all(&mut out, et.as_slice());
    }
    string_of(out.as_slice())
}

/// Compiles BibTeX source into a `thebibliography` environment (or an
/// enumerated list): parses the records, optionally orders them by year with
/// the most recent first, and formats each entry. Fails naming the entry when
/// a needed field is missing, or when sorting is asked and a year is not
/// numeric.
fn check_fields(entries: &Vec<Entry>) -> (r: Option<CompileError>)
    ensures
        match r {
            None => forall|l: int|
                0 <= l < entries@.len() ==> entry_ok((#[trigger] entries@[l])@),
            Some(err) => (exists|i: int|
                0 <= i < entries@.len() && !entry_ok((#[trigger] entries@[i])@)) && (err matches
            CompileError::MissingField { .. }),
        },
{
    let ak: Vec<char> = vec!['a', 'u', 't', 'h', 'o', 'r'];
    let tk: Vec<char> = vec!['t', 'i', 't', 'l', 'e'];
    let yk: Vec<char> = vec!['y', 'e', 'a', 'r'];
    proof {
        assert(ak@ =~= author_key());
        assert(tk@ =~= title_key());
        assert(yk@ =~= year_key());
    }
    let mut i: usize = 0;
    while i < entries.len()
        invariant
            i <= entries@.len(),
            ak@ == author_key(),
            tk@ == title_key(),
            yk@ == year_key(),
            forall|l: int| 0 <= l < i ==> entry_ok((#[trigger] entries@[l])@),
        decreases entries@.len() - i,
    {
        let e = &entries[i];
        if get_param(e, ak.as_slice()).is_none() {
            return Some(
                CompileError::MissingField { entry: e.name.clone(), field: "author".to_owned() },
            );
        }
        if get_param(e, tk.as_slice()).is_none() {
            return Some(
                CompileError::MissingField { entry: e.name.clone(), field: "title".to_owned() },
            );
        }
        if get_param(e, yk.as_slice()).is_none() {
            return Some(
                CompileError::MissingField { entry: e.name.clone(), field: "year".to_owned() },
            );
        }
        i = i + 1;
    }
    None
}

fn collect_years(entries: &Vec<Entry>) -> (r: Result<Vec<u64>, CompileError>)
    requires
        forall|l: int| 0 <= l < entries@.len() ==> entry_ok((#[trigger] entries@[l])@),
    ensures
        match r {
            Ok(ys) => ys@.len() == entries@.len() && forall|l: int|
                0 <= l < entries@.len() ==> (#[trigger] ys@[l]) as nat == entry_year(
                    entries@[l]@,
                ) && year_ok(entries@[l]@.params[year_key()]),
            Err(err) => (exists|i: int|
                0 <= i < entries@.len() && !year_ok(
                    (#[trigger] entries@[i])@.params[year_key()],
                )) && (err matches CompileError::BadYear { .. }),
        },
{
    let yk: Vec<char> = vec!['y', 'e', 'a', 'r'];
    proof {
        assert(yk@ =~= year_key());
    }
    let mut ys: Vec<u64> = Vec::new();
    let mut k: usize = 0;
    while k < entries.len()
        invariant
            k <= entries@.len(),
            yk@ == year_key(),
            forall|l: int| 0 <= l < entries@.len() ==> entry_ok((#[trigger] entries@[l])@),
            ys@.len() == k,
            forall|l: int|
                0 <= l < k ==> (#[trigger] ys@[l]) as nat == entry_year(entries@[l]@) && year_ok(
                    entries@[l]@.params[year_key()],
                ),
        decreases entries@.len() - k,
    {
        let e = &entries[k];
        proof {
            assert(entry_ok(entries@[k as int]@));
        }
        let yv = match get_param(e, yk.as_slice()) {
            Some(v) => v,
            None => {
                proof {
                    assert(false);
                }
                String::new()
            },
        };
        match parse_year(yv.as_str()) {
            Some(y) => {
                proof {
                    assert((y as nat) == entry_year(entries@[k as int]@));
                }
                ys.push(y);
            },
            None => {
                proof {
                    assert(!year_ok(entries@[k as int]@.params[year_key()]));
                }
                return Err(CompileError::BadYear { entry: e.name.clone() });
            },
        }
        k = k + 1;
    }
    Ok(ys)
}

/// Compiles BibTeX source into a `thebibliography` environment (or an
/// enumerated list): parses the records, optionally orders them by year with
/// the most recent first, and formats each entry. Fails naming the entry when
/// a needed field is missing, or when sorting is asked and a year is not
/// numeric.
#[verifier::rlimit(100)]
#[verifier::spinoff_prover]
pub fn compile_text(data: &str, cli: &CompileCli) -> (r: Result<String, CompileError>)
    ensures
        ({
            let es = compile_entries_spec(data@);
            match r {
                Ok(out) => compile_ok(es, cli.sort) && exists|sorted: Seq<EntryModel>|
                    #[trigger] sorted_rel(es, sorted, cli.sort) && out@ == compile_output_spec(
                        sorted,
                        cli.publisher,
                        cli.aslist,
                        cli.cite_prefix@,
                    ),
                Err(err) => !compile_ok(es, cli.sort) && match err {
                    CompileError::MissingField { .. } => exists|i: int|
                        0 <= i < es.len() && !entry_ok(#[trigger] es[i]),
                    CompileError::BadYear { .. } => cli.sort && exists|i: int|
                        0 <= i < es.len() && !year_ok((#[trigger] es[i]).params[year_key()]),
                },
            }
        }),
{
    let entries = parse_bibliography(data);
    let ghost em = entries@.map_values(|e: Entry| e@);
    match check_fields(&entries) {
        Some(err) => {
            proof {
                let i = choose|i: int|
                    0 <= i < entries@.len() && !entry_ok((#[trigger] entries@[i])@);
                assert(!entry_ok(em[i]));
                assert(!compile_ok(em, cli.sort));
            }
            return Err(err);
        },
        None => {},
    }
    let prefix = chars_vec(cli.cite_prefix.as_str());
    if cli.sort {
        let ys = match collect_years(&entries) {
            Ok(ys) => ys,
            Err(err) => {
                proof {
                    let i = choose|i: int|
                        0 <= i < entries@.len() && !year_ok(
                            (#[trigger] entries@[i])@.params[year_key()],
                        );
                    assert(!year_ok(em[i].params[year_key()]));
                    assert(!compile_ok(em, cli.sort));
                }
                return Err(err);
            },
        };
        proof {
            assert(compile_ok(em, cli.sort)) by {
                assert forall|l: int| 0 <= l < em.len() implies entry_ok(#[trigger] em[l]) by {
                    assert(entry_ok(entries@[l]@));
                }
                assert forall|l: int| 0 <= l < em.len() implies year_ok(
                    (#[trigger] em[l]).params[year_key()],
                ) by {
                    assert(ys@[l] as nat == entry_year(entries@[l]@) && year_ok(
                        entries@[l]@.params[year_key()],
                    ));
                }
            }
            assert forall|l: int| 0 <= l < entries@.len() implies (#[trigger] ys@[l]) as nat
                == entry_year(em[l]) by {
                assert(ys@[l] as nat == entry_year(entries@[l]@));
            }
        }
        let sorted = sort_entries_desc(entries, ys);
        proof {
            let sm = sorted@.map_values(|e: Entry| e@);
            assert(sorted_rel(em, sm, true));
            assert forall|l: int| 0 <= l < sorted@.len() implies entry_ok(
                (#[trigger] sorted@[l])@,
            ) by {
                assert(sm[l] == sorted@[l]@);
                assert(em.contains(sm[l]));
                let w = choose|w: int| 0 <= w < em.len() && em[w] == sm[l];
                assert(entry_ok(em[w]));
            }
        }
        let out = compile_format(&sorted, cli.publisher, cli.aslist, prefix.as_slice());
        Ok(out)
    } else {
        proof {
            assert(compile_ok(em, cli.sort)) by {
                assert forall|l: int| 0 <= l < em.len() implies entry_ok(#[trigger] em[l]) by {
                    assert(entry_ok(entries@[l]@));
                }
            }
            assert(sorted_rel(em, em, false));
        }
        let out = compile_format(&entries, cli.publisher, cli.aslist, prefix.as_slice());
        Ok(out)
    }
}

} // verus!
