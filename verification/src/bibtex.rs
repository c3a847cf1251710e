//! A standalone BibTeX reader: walks `@type{key, field = value, ...}` records
//! with a brace-depth counter, one level of nesting allowed inside field
//! values.
use crate::clean::trim_braces_spec;
use crate::keymap::assoc_map;
use crate::text::{chars_vec, find_pos, find_pos_run, push_all, string_of, trim, trim_spec};
use vstd::prelude::*;
use vstd::slice::slice_subrange;

verus! {

/// One BibTeX record: its key, its record type, and its fields in
/// declaration order (a later duplicate field wins).
pub struct Entry {
    pub name: String,
    pub kind: String,
    pub params: Vec<(String, String)>,
}

/// The mathematical content of an [`Entry`].
pub struct EntryModel {
    pub name: Seq<char>,
    pub kind: Seq<char>,
    pub params: Map<Seq<char>, Seq<char>>,
}

impl View for Entry {
    type V = EntryModel;

    open spec fn view(&self) -> EntryModel {
        EntryModel { name: self.name@, kind: self.kind@, params: assoc_map(self.params@) }
    }
}

/// Position of the first occurrence of `c` in `s`, if any.
pub fn find(s: &[char], c: char) -> (r: Option<usize>)
    ensures
        match r {
            Some(i) => i < s@.len() && s@[i as int] == c && forall|k: int|
                0 <= k < i ==> s@[k] != c,
            None => forall|k: int| 0 <= k < s@.len() ==> s@[k] != c,
        },
{
    let mut i: usize = 0;
    while i < s.len()
        invariant
            i <= s@.len(),
            forall|k: int| 0 <= k < i ==> s@[k] != c,
        decreases s@.len() - i,
    {
        if s[i] == c {
            return Some(i);
        }
        i = i + 1;
    }
    None
}

/// The record scanner's one step over the field region: collecting the raw
/// comma-separated parts of the record body between its braces, trimmed,
/// honoring nested braces, and the position just past the record. The first
/// part starts with the opening brace itself and carries the record key.
pub open spec fn scan_fields(
    s: Seq<char>,
    j: int,
    level: int,
    accum: Seq<char>,
    parts: Seq<Seq<char>>,
) -> (Seq<Seq<char>>, int)
    decreases s.len() - j,
        when 0 <= j <= s.len()
{
    if j >= s.len() {
        (
            if accum.len() > 0 {
                parts.push(trim_spec(accum))
            } else {
                parts
            },
            j,
        )
    } else {
        let c = s[j];
        if level == 1 && c == '}' {
            (
                if accum.len() > 0 {
                    parts.push(trim_spec(accum))
                } else {
                    parts
                },
                j + 1,
            )
        } else if level == 1 && c == ',' {
            scan_fields(s, j + 1, 1, Seq::<char>::empty(), parts.push(trim_spec(accum)))
        } else {
            let nl: int = if c == '{' {
                level + 1
            } else if c == '}' {
                if level > 0 {
                    level - 1
                } else {
                    0
                }
            } else {
                level
            };
            scan_fields(s, j + 1, nl, accum.push(c), parts)
        }
    }
}

/// The scanner never steps backward and ends within the text.
pub proof fn lemma_scan_fields_bounds(
    s: Seq<char>,
    j: int,
    level: int,
    accum: Seq<char>,
    parts: Seq<Seq<char>>,
)
    requires
        0 <= j <= s.len(),
    ensures
        j <= scan_fields(s, j, level, accum, parts).1 <= s.len(),
    decreases s.len() - j,
{
    if j >= s.len() {
    } else {
        let c = s[j];
        if level == 1 && c == '}' {
        } else if level == 1 && c == ',' {
            lemma_scan_fields_bounds(s, j + 1, 1, Seq::<char>::empty(), parts.push(
                trim_spec(accum),
            ));
        } else {
            let nl: int = if c == '{' {
                level + 1
            } else if c == '}' {
                if level > 0 {
                    level - 1
                } else {
                    0
                }
            } else {
                level
            };
            lemma_scan_fields_bounds(s, j + 1, nl, accum.push(c), parts);
        }
    }
}

fn scan_fields_run(
    s: &[char],
    j: usize,
    level: u64,
    accum: Vec<char>,
    parts: Vec<Vec<char>>,
) -> (r: (Vec<Vec<char>>, usize))
    requires
        j <= s@.len(),
        level <= j,
    ensures
        ({
            let g = scan_fields(
                s@,
                j as int,
                level as int,
                accum@,
                parts@.map_values(|p: Vec<char>| p@),
            );
            r.0@.map_values(|p: Vec<char>| p@) == g.0 && r.1 as int == g.1 && r.1 <= s@.len()
        }),
    decreases s@.len() - j,
{
    let ghost pm = parts@.map_values(|p: Vec<char>| p@);
    if j >= s.len() {
        let mut parts = parts;
        if accum.len() > 0 {
            let t = trim(accum.as_slice());
            let mut tv: Vec<char> = Vec::new();
            push_all(&mut tv, t);
            parts.push(tv);
            proof {
                assert(parts@.map_values(|p: Vec<char>| p@) =~= pm.push(trim_spec(accum@)));
            }
        }
        (parts, j)
    } else {
        let c = s[j];
        if level == 1 && c == '}' {
            let mut parts = parts;
            if accum.len() > 0 {
                let t = trim(accum.as_slice());
                let mut tv: Vec<char> = Vec::new();
                push_all(&mut tv, t);
                parts.push(tv);
                proof {
                    assert(parts@.map_values(|p: Vec<char>| p@) =~= pm.push(trim_spec(accum@)));
                }
            }
            (parts, j + 1)
        } else if level == 1 && c == ',' {
            let t = trim(accum.as_slice());
            let mut tv: Vec<char> = Vec::new();
            push_all(&mut tv, t);
            let mut parts = parts;
            parts.push(tv);
            proof {
                assert(parts@.map_values(|p: Vec<char>| p@) =~= pm.push(trim_spec(accum@)));
            }
            scan_fields_run(s, j + 1, 1, Vec::new(), parts)
        } else {
            let nl: u64 = if c == '{' {
                level + 1
            } else if c == '}' {
                if level > 0 {
                    level - 1
                } else {
                    0
                }
            } else {
                level
            };
            let mut accum = accum;
            accum.push(c);
            scan_fields_run(s, j + 1, nl, accum, parts)
        }
    }
}

/// A field parsed from one raw part: the text before the first `=` is the
/// field name, the rest its value, braces trimmed; a part without `=` is no
/// field.
pub open spec fn field_of(part: Seq<char>) -> Option<(Seq<char>, Seq<char>)> {
    let e = find_pos(part, seq!['='], 0);
    if e >= part.len() {
        None
    } else {
        Some((trim_spec(part.take(e)), trim_braces_spec(part.skip(e + 1))))
    }
}

/// The field map of the raw parts, in order, a later duplicate winning.
pub open spec fn params_of(parts: Seq<Seq<char>>) -> Map<Seq<char>, Seq<char>>
    decreases parts.len(),
{
    if parts.len() == 0 {
        Map::<Seq<char>, Seq<char>>::empty()
    } else {
        let m = params_of(parts.drop_last());
        match field_of(parts.last()) {
            Some(kv) => m.insert(kv.0, kv.1),
            None => m,
        }
    }
}

/// All records parsed from position `j` on: each starts at an `@`, its type
/// runs to the opening brace, its first raw part (opening brace dropped)
/// names the key, the remaining parts are fields. An `@` with no opening
/// brace after it ends the parse.
pub open spec fn parse_from(s: Seq<char>, j: int) -> Seq<EntryModel>
    decreases s.len() - j,
        when 0 <= j <= s.len()
{
    let a = find_pos(s, seq!['@'], j);
    if a >= s.len() {
        Seq::<EntryModel>::empty()
    } else {
        let x = find_pos(s, seq!['{'], a + 1);
        if x >= s.len() {
            Seq::<EntryModel>::empty()
        } else {
            proof {
                crate::text::lemma_find_pos_bounds(s, seq!['@'], j);
                crate::text::lemma_find_pos_bounds(s, seq!['{'], a + 1);
                lemma_scan_fields_bounds(
                    s,
                    x,
                    0,
                    Seq::<char>::empty(),
                    Seq::<Seq<char>>::empty(),
                );
            }
            let kind = s.subrange(a + 1, x);
            let sf = scan_fields(s, x, 0, Seq::<char>::empty(), Seq::<Seq<char>>::empty());
            let parts = sf.0;
            let name = if parts.len() > 0 && parts[0].len() >= 1 {
                parts[0].skip(1)
            } else {
                Seq::<char>::empty()
            };
            let tailparts = if parts.len() >= 1 {
                parts.skip(1)
            } else {
                parts
            };
            let entry = EntryModel { name, kind, params: params_of(tailparts) };
            seq![entry] + (if sf.1 > j {
                parse_from(s, sf.1)
            } else {
                Seq::<EntryModel>::empty()
            })
        }
    }
}

/// The records of a whole BibTeX source.
pub open spec fn parse_spec(s: Seq<char>) -> Seq<EntryModel> {
    parse_from(s, 0)
}

fn field_of_run(part: &[char]) -> (r: Option<(String, String)>)
    ensures
        match r {
            Some(kv) => field_of(part@) == Some((kv.0@, kv.1@)),
            None => field_of(part@) is None,
        },
{
    let eqv: Vec<char> = vec!['='];
    proof {
        assert(eqv@ =~= seq!['=']);
    }
    let e = find_pos_run(part, eqv.as_slice(), 0);
    if e >= part.len() {
        return None;
    }
    let namec = trim(slice_subrange(part, 0, e));
    let name = string_of(namec);
    let valc = crate::clean::trim_braces(slice_subrange(part, e + 1, part.len()));
    let value = string_of(valc.as_slice());
    proof {
        assert(part@.subrange(0, e as int) =~= part@.take(e as int));
        assert(part@.subrange(e + 1, part@.len() as int) =~= part@.skip(e + 1));
    }
    Some((name, value))
}

fn params_of_run(parts: &Vec<Vec<char>>, from: usize) -> (ps: Vec<(String, String)>)
    requires
        from <= parts@.len(),
    ensures
        assoc_map(ps@) == params_of(parts@.map_values(|p: Vec<char>| p@).skip(from as int)),
{
    let ghost gp = parts@.map_values(|p: Vec<char>| p@).skip(from as int);
    let mut ps: Vec<(String, String)> = Vec::new();
    let mut i: usize = from;
    while i < parts.len()
        invariant
            from <= i <= parts@.len(),
            gp == parts@.map_values(|p: Vec<char>| p@).skip(from as int),
            assoc_map(ps@) == params_of(gp.take(i - from)),
        decreases parts@.len() - i,
    {
        let ghost before = ps@;
        match field_of_run(parts[i].as_slice()) {
            Some(kv) => {
                ps.push(kv);
                proof {
                    assert(ps@.drop_last() =~= before);
                }
            },
            None => {},
        }
        proof {
            assert(gp.take(i - from + 1).drop_last() =~= gp.take(i - from));
            assert(gp.take(i - from + 1).last() == gp[i - from]);
            assert(gp[i - from] == parts@[i as int]@);
        }
        i = i + 1;
    }
    proof {
        assert(gp.take(gp.len() as int) =~= gp);
    }
    ps
}

fn parse_run(s: &[char], j: usize) -> (es: Vec<Entry>)
    requires
        j <= s@.len(),
    ensures
        es@.map_values(|e: Entry| e@) == parse_from(s@, j as int),
    decreases s@.len() - j,
{
    let atv: Vec<char> = vec!['@'];
    let obv: Vec<char> = vec!['{'];
    proof {
        assert(atv@ =~= seq!['@']);
        assert(obv@ =~= seq!['{']);
    }
    let a = find_pos_run(s, atv.as_slice(), j);
    if a >= s.len() {
        let es: Vec<Entry> = Vec::new();
        proof {
            assert(es@.map_values(|e: Entry| e@) =~= parse_from(s@, j as int));
        }
        return es;
    }
    let x = find_pos_run(s, obv.as_slice(), a + 1);
    if x >= s.len() {
        let es: Vec<Entry> = Vec::new();
        proof {
            assert(es@.map_values(|e: Entry| e@) =~= parse_from(s@, j as int));
        }
        return es;
    }
    let kind = string_of(slice_subrange(s, a + 1, x));
    let empty_accum: Vec<char> = Vec::new();
    let empty_parts: Vec<Vec<char>> = Vec::new();
    proof {
        assert(empty_accum@ =~= Seq::<char>::empty());
        assert(empty_parts@.map_values(|p: Vec<char>| p@) =~= Seq::<Seq<char>>::empty());
    }
    let sf = scan_fields_run(s, x, 0, empty_accum, empty_parts);
    let parts = sf.0;
    let nj = sf.1;
    let ghost gsf = scan_fields(s@, x as int, 0, Seq::<char>::empty(), Seq::<Seq<char>>::empty());
    proof {
        assert(parts@.map_values(|p: Vec<char>| p@) == gsf.0);
        assert(nj as int == gsf.1);
    }
    let name: String = if parts.len() > 0 && parts[0].len() >= 1 {
        string_of(slice_subrange(parts[0].as_slice(), 1, parts[0].len()))
    } else {
        String::new()
    };
    proof {
        let gparts = gsf.0;
        assert(parts@.len() == gparts.len());
        if gparts.len() > 0 && gparts[0].len() >= 1 {
            assert(parts@[0]@ == gparts[0]);
            assert(parts@[0]@.subrange(1, parts@[0]@.len() as int) =~= gparts[0].skip(1));
        }
    }
    let params: Vec<(String, String)> = if parts.len() >= 1 {
        params_of_run(&parts, 1)
    } else {
        Vec::new()
    };
    let entry = Entry { name, kind, params };
    let mut es: Vec<Entry> = Vec::new();
    es.push(entry);
    if nj > j {
        let mut rest = parse_run(s, nj);
        es.append(&mut rest);
    }
    proof {
        assert(es@.map_values(|e: Entry| e@) =~= parse_from(s@, j as int));
    }
    es
}

/// Parses every `@type{key, field = value, ...}` record of `data`, in order.
pub fn parse(data: &str) -> (es: Vec<Entry>)
    ensures
        es@.map_values(|e: Entry| e@) == parse_spec(data@),
{
    let v = chars_vec(data);
    parse_run(v.as_slice(), 0)
}

} // verus!
