//! The rewrite planner: applies the canonical-key remapping to every
//! citation, deduplicates keys within each citation, computes the global
//! first-seen citation order, and builds the minimal bibliography.
use crate::cluster::{components_ok, red_match, reps_match, Threshold};
use crate::extract::{BibEntry, BibModel, Cite, CiteModel};
use crate::keymap::KeyMap;
use vstd::prelude::*;

verus! {

/// Keys sent through the remap table: mapped keys are replaced by their
/// canonical form, unmapped keys pass through unchanged.
pub open spec fn remap_keys(m: Map<Seq<char>, Seq<char>>, ks: Seq<Seq<char>>) -> Seq<Seq<char>> {
    ks.map_values(
        |k: Seq<char>|
            if m.contains_key(k) {
                m[k]
            } else {
                k
            },
    )
}

/// First occurrences kept in order, later repeats dropped.
pub open spec fn dedup_first(s: Seq<Seq<char>>) -> Seq<Seq<char>>
    decreases s.len(),
{
    if s.len() == 0 {
        s
    } else {
        let rest = dedup_first(s.drop_last());
        if rest.contains(s.last()) {
            rest
        } else {
            rest.push(s.last())
        }
    }
}

/// Deduplication leaves no duplicate behind.
pub proof fn lemma_dedup_no_duplicates(s: Seq<Seq<char>>)
    ensures
        dedup_first(s).no_duplicates(),
    decreases s.len(),
{
    if s.len() > 0 {
        lemma_dedup_no_duplicates(s.drop_last());
        let rest = dedup_first(s.drop_last());
        if !rest.contains(s.last()) {
            let t = rest.push(s.last());
            assert forall|k1: int, k2: int|
                0 <= k1 < t.len() && 0 <= k2 < t.len() && k1 != k2 implies t[k1] != t[k2] by {
                if k1 == t.len() - 1 && t[k1] == t[k2] {
                    assert(rest.contains(t[k2]));
                } else if k2 == t.len() - 1 && t[k1] == t[k2] {
                    assert(rest.contains(t[k1]));
                }
            }
        }
    }
}

/// Deduplication keeps exactly the members of the original list.
pub proof fn lemma_dedup_same_set(s: Seq<Seq<char>>)
    ensures
        forall|x: Seq<char>| #[trigger] dedup_first(s).contains(x) <==> s.contains(x),
    decreases s.len(),
{
    if s.len() > 0 {
        lemma_dedup_same_set(s.drop_last());
        let rest = dedup_first(s.drop_last());
        assert forall|x: Seq<char>| #[trigger] dedup_first(s).contains(x) implies s.contains(x)
            by {
            if rest.contains(x) {
                assert(s.drop_last().contains(x));
                let k = choose|k: int| 0 <= k < s.drop_last().len() && s.drop_last()[k] == x;
                assert(s[k] == x);
            } else {
                let k = choose|k: int| 0 <= k < dedup_first(s).len() && dedup_first(s)[k] == x;
                assert(x == s.last());
                assert(s[s.len() - 1] == x);
            }
        }
        assert forall|x: Seq<char>| s.contains(x) implies #[trigger] dedup_first(s).contains(x)
            by {
            let k = choose|k: int| 0 <= k < s.len() && s[k] == x;
            if k < s.len() - 1 {
                assert(s.drop_last()[k] == x);
                assert(s.drop_last().contains(x));
                assert(rest.contains(x));
                if !rest.contains(s.last()) {
                    let kk = choose|kk: int| 0 <= kk < rest.len() && rest[kk] == x;
                    assert(dedup_first(s)[kk] == x);
                }
            } else {
                if rest.contains(s.last()) {
                    assert(dedup_first(s) == rest);
                } else {
                    assert(dedup_first(s).last() == x);
                }
            }
        }
    }
}

/// A cleaned citation's key list holds no duplicate, and every key it holds
/// arose from an original key: unchanged where the table does not remap it,
/// else the table's canonical value for it.
pub proof fn lemma_clean_keys(m: Map<Seq<char>, Seq<char>>, ks: Seq<Seq<char>>)
    ensures
        dedup_first(remap_keys(m, ks)).no_duplicates(),
        forall|x: Seq<char>| #[trigger] dedup_first(remap_keys(m, ks)).contains(x)
            ==> exists|l: int|
            0 <= l < ks.len() && x == (if m.contains_key(ks[l]) {
                m[ks[l]]
            } else {
                ks[l]
            }),
{
    lemma_dedup_no_duplicates(remap_keys(m, ks));
    lemma_dedup_same_set(remap_keys(m, ks));
    assert forall|x: Seq<char>| #[trigger] dedup_first(remap_keys(m, ks)).contains(x)
        implies exists|l: int|
        0 <= l < ks.len() && x == (if m.contains_key(ks[l]) {
            m[ks[l]]
        } else {
            ks[l]
        }) by {
        assert(remap_keys(m, ks).contains(x));
        let l = choose|l: int| 0 <= l < remap_keys(m, ks).len() && remap_keys(m, ks)[l] == x;
        assert(remap_keys(m, ks)[l] == (if m.contains_key(ks[l]) {
            m[ks[l]]
        } else {
            ks[l]
        }));
    }
}

/// Every key of a cleaned citation is an original key the table does not
/// remap, or the canonical key of some cluster.
pub proof fn lemma_clean_keys_canonical(
    bibm: Seq<BibModel>,
    cv: Seq<Seq<usize>>,
    m: Map<Seq<char>, Seq<char>>,
    ks: Seq<Seq<char>>,
    x: Seq<char>,
)
    requires
        reps_match(bibm, cv, m),
        dedup_first(remap_keys(m, ks)).contains(x),
    ensures
        (exists|l: int| 0 <= l < ks.len() && ks[l] == x && !m.contains_key(x)) || (exists|ci: int|
            0 <= ci < cv.len() && x == bibm[#[trigger] cv[ci][0] as int].key),
{
    lemma_clean_keys(m, ks);
    let l = choose|l: int|
        0 <= l < ks.len() && x == (if m.contains_key(ks[l]) {
            m[ks[l]]
        } else {
            ks[l]
        });
    if m.contains_key(ks[l]) {
        assert(m.contains_key(ks[l]));
        let (ci, k): (int, int) = choose|ci: int, k: int|
            0 <= ci < cv.len() && 1 <= k < cv[ci].len() && ks[l] == bibm[#[trigger] cv[ci][k] as int].key
                && ks[l] != bibm[cv[ci][0] as int].key && m[ks[l]] == bibm[cv[ci][0] as int].key;
        assert(x == bibm[cv[ci][0] as int].key);
    }
}

fn contains_str(v: &Vec<String>, s: &String) -> (b: bool)
    ensures
        b == v@.map_values(|x: String| x@).contains(s@),
{
    let mut i: usize = 0;
    while i < v.len()
        invariant
            i <= v@.len(),
            forall|k: int| 0 <= k < i ==> (#[trigger] v@[k])@ != s@,
        decreases v@.len() - i,
    {
        if v[i] == *s {
            proof {
                assert(v@.map_values(|x: String| x@)[i as int] == s@);
            }
            return true;
        }
        i = i + 1;
    }
    proof {
        if v@.map_values(|x: String| x@).contains(s@) {
            let vm = v@.map_values(|x: String| x@);
            let k = choose|k: int| 0 <= k < vm.len() && vm[k] == s@;
            assert(v@[k]@ == s@);
        }
    }
    false
}

/// Drops every repeat of an earlier element, keeping first occurrences in
/// order.
pub fn vec_dedup(v: &mut Vec<String>)
    ensures
        final(v)@.map_values(|s: String| s@) == dedup_first(old(v)@.map_values(|s: String| s@)),
{
    let ghost vm = v@.map_values(|s: String| s@);
    let mut out: Vec<String> = Vec::new();
    let mut i: usize = 0;
    while i < v.len()
        invariant
            i <= v@.len(),
            vm == v@.map_values(|s: String| s@),
            out@.map_values(|s: String| s@) == dedup_first(vm.take(i as int)),
        decreases v@.len() - i,
    {
        let ghost before = out@.map_values(|s: String| s@);
        let c = v[i].clone();
        if !contains_str(&out, &c) {
            out.push(c);
            proof {
                assert(out@.map_values(|s: String| s@) =~= before.push(vm[i as int]));
            }
        }
        proof {
            assert(vm.take(i + 1 as int).drop_last() =~= vm.take(i as int));
            assert(vm.take(i + 1 as int).last() == vm[i as int]);
        }
        i = i + 1;
    }
    proof {
        assert(vm.take(vm.len() as int) =~= vm);
    }
    *v = out;
}

/// Rewrites one key list: remaps each key through the table, then removes
/// duplicates, keeping first occurrences.
fn clean_key_list(keys: &Vec<String>, reps: &KeyMap) -> (r: Vec<String>)
    ensures
        r@.map_values(|s: String| s@) == dedup_first(
            remap_keys(reps@, keys@.map_values(|s: String| s@)),
        ),
{
    let ghost km = keys@.map_values(|s: String| s@);
    let mut mapped: Vec<String> = Vec::new();
    let mut i: usize = 0;
    while i < keys.len()
        invariant
            i <= keys@.len(),
            km == keys@.map_values(|s: String| s@),
            mapped@.map_values(|s: String| s@) == remap_keys(reps@, km.take(i as int)),
        decreases keys@.len() - i,
    {
        let ghost mapped_before = mapped@;
        let ghost before = mapped@.map_values(|s: String| s@);
        proof {
            assert(keys@[i as int]@ == km[i as int]);
            assert(before.len() == i);
        }
        match reps.lookup(&keys[i]) {
            Some(v) => {
                mapped.push(v);
            },
            None => {
                mapped.push(keys[i].clone());
            },
        }
        proof {
            let mm = mapped@.map_values(|s: String| s@);
            let target = remap_keys(reps@, km.take(i + 1));
            assert(mapped@.len() == i + 1);
            assert(mm.len() == i + 1 && target.len() == i + 1);
            assert forall|l: int| 0 <= l < i + 1 implies mm[l] == target[l] by {
                assert(km.take(i + 1)[l] == km[l]);
                if l < i {
                    assert(mapped@[l] == mapped_before[l]);
                    assert(mm[l] == mapped_before[l]@);
                    assert(before[l] == mapped_before[l]@);
                    assert(before[l] == remap_keys(reps@, km.take(i as int))[l]);
                    assert(km.take(i as int)[l] == km[l]);
                } else {
                    assert(mm[l] == mapped@[l]@);
                }
            }
            assert(mm =~= target);
        }
        i = i + 1;
    }
    proof {
        assert(km.take(km.len() as int) =~= km);
    }
    let mut r = mapped;
    vec_dedup(&mut r);
    r
}

/// Rewrites every citation through the remap table, deduplicating each
/// citation's keys while keeping their first-occurrence order; kind and
/// matched text stay as they were.
pub fn clean_cites(cites: &Vec<Cite>, reps: &KeyMap) -> (r: Vec<Cite>)
    ensures
        r@.len() == cites@.len(),
        forall|c: int|
            0 <= c < cites@.len() ==> ((#[trigger] r@[c])@.keys == dedup_first(
                remap_keys(reps@, cites@[c]@.keys),
            ) && r@[c]@.kind == cites@[c]@.kind && r@[c]@.raw == cites@[c]@.raw),
{
    let mut r: Vec<Cite> = Vec::new();
    let mut c: usize = 0;
    while c < cites.len()
        invariant
            c <= cites@.len(),
            r@.len() == c,
            forall|k: int|
                0 <= k < c ==> ((#[trigger] r@[k])@.keys == dedup_first(
                    remap_keys(reps@, cites@[k]@.keys),
                ) && r@[k]@.kind == cites@[k]@.kind && r@[k]@.raw == cites@[k]@.raw),
        decreases cites@.len() - c,
    {
        let keys = clean_key_list(&cites[c].keys, reps);
        let nc = Cite { keys, kind: cites[c].kind, raw: cites[c].raw.clone() };
        r.push(nc);
        c = c + 1;
    }
    r
}

/// All keys cited, in citation order, left to right within each citation.
pub open spec fn all_keys(cs: Seq<CiteModel>) -> Seq<Seq<char>>
    decreases cs.len(),
{
    if cs.len() == 0 {
        Seq::<Seq<char>>::empty()
    } else {
        all_keys(cs.drop_last()) + cs.last().keys
    }
}

/// The global citation order: each distinct key at its first appearance.
pub open spec fn cited_order(cs: Seq<CiteModel>) -> Seq<Seq<char>> {
    dedup_first(all_keys(cs))
}

/// The text standing in for a cited key with no matching entry.
pub open spec fn placeholder_text() -> Seq<char> {
    seq![
        'E', 'R', 'R', 'O', 'R', ',', ' ', 'B', 'I', 'B', 'E', 'N', 'T', 'R', 'Y', ' ', 'N',
        'O', 'T', ' ', 'F', 'O', 'U', 'N', 'D', '.',
    ]
}

/// The text of the first entry from position `j` on whose key is `k`; the
/// placeholder when none matches.
pub open spec fn text_for_from(redm: Seq<BibModel>, j: int, k: Seq<char>) -> Seq<char>
    decreases redm.len() - j,
        when 0 <= j <= redm.len()
{
    if j >= redm.len() {
        placeholder_text()
    } else if redm[j].key == k {
        redm[j].text
    } else {
        text_for_from(redm, j + 1, k)
    }
}

/// The text the minimal bibliography gives a cited key.
pub open spec fn text_for(redm: Seq<BibModel>, k: Seq<char>) -> Seq<char> {
    text_for_from(redm, 0, k)
}

/// The minimal bibliography: one entry for each distinct cited key, in first
/// citation order, carrying the reduced bibliography's text for that key, or
/// the placeholder where it has none.
pub open spec fn minimal_bib_spec(cs: Seq<CiteModel>, redm: Seq<BibModel>) -> Seq<BibModel> {
    cited_order(cs).map_values(|k: Seq<char>| BibModel { key: k, text: text_for(redm, k) })
}

/// The minimal bibliography's keys are exactly the distinct keys of the
/// cleaned citations, in first-seen order: none extra, none missing — a key
/// with no data source gets the placeholder text, not dropped.
pub proof fn lemma_minimal_bib_complete(cs: Seq<CiteModel>, redm: Seq<BibModel>)
    ensures
        minimal_bib_spec(cs, redm).map_values(|e: BibModel| e.key) == cited_order(cs),
        forall|k: Seq<char>| #[trigger] cited_order(cs).contains(k) <==> all_keys(cs).contains(k),
{
    assert(minimal_bib_spec(cs, redm).map_values(|e: BibModel| e.key) =~= cited_order(cs));
    lemma_dedup_same_set(all_keys(cs));
}

fn text_for_run(red: &Vec<BibEntry>, j: usize, k: &String) -> (t: String)
    requires
        j <= red@.len(),
    ensures
        t@ == text_for_from(red@.map_values(|e: BibEntry| e@), j as int, k@),
    decreases red@.len() - j,
{
    let ghost redm = red@.map_values(|e: BibEntry| e@);
    if j >= red.len() {
        let t = "ERROR, BIBENTRY NOT FOUND.".to_owned();
        proof {
            reveal_strlit("ERROR, BIBENTRY NOT FOUND.");
            assert(t@ =~= placeholder_text());
        }
        t
    } else if red[j].key == *k {
        red[j].text.clone()
    } else {
        text_for_run(red, j + 1, k)
    }
}

/// Builds the minimal bibliography for the cleaned citations from the reduced
/// bibliography.
pub fn minimal_bib(clean: &Vec<Cite>, red: &Vec<BibEntry>) -> (r: Vec<BibEntry>)
    ensures
        r@.map_values(|e: BibEntry| e@) == minimal_bib_spec(
            clean@.map_values(|c: Cite| c@),
            red@.map_values(|e: BibEntry| e@),
        ),
{
    let ghost cm = clean@.map_values(|c: Cite| c@);
    let ghost redm = red@.map_values(|e: BibEntry| e@);
    let mut flat: Vec<String> = Vec::new();
    let mut c: usize = 0;
    while c < clean.len()
        invariant
            c <= clean@.len(),
            cm == clean@.map_values(|c: Cite| c@),
            flat@.map_values(|s: String| s@) == all_keys(cm.take(c as int)),
        decreases clean@.len() - c,
    {
        let keys = &clean[c].keys;
        let mut k: usize = 0;
        while k < keys.len()
            invariant
                c < clean@.len(),
                k <= keys@.len(),
                cm == clean@.map_values(|c: Cite| c@),
                keys@ == clean@[c as int].keys@,
                flat@.map_values(|s: String| s@) == all_keys(cm.take(c as int)) + cm[c as int].keys.take(k as int),
            decreases keys@.len() - k,
        {
            let ghost before = flat@.map_values(|s: String| s@);
            flat.push(keys[k].clone());
            proof {
                assert(flat@.map_values(|s: String| s@) =~= before.push(
                    cm[c as int].keys[k as int],
                ));
                assert(cm[c as int].keys.take(k + 1) =~= cm[c as int].keys.take(k as int).push(
                    cm[c as int].keys[k as int],
                ));
            }
            k = k + 1;
        }
        proof {
            assert(cm.take(c + 1).drop_last() =~= cm.take(c as int));
            assert(cm.take(c + 1).last() == cm[c as int]);
            assert(cm[c as int].keys.take(cm[c as int].keys.len() as int) =~= cm[c as int].keys);
        }
        c = c + 1;
    }
    proof {
        assert(cm.take(cm.len() as int) =~= cm);
    }
    let mut ord = flat;
    vec_dedup(&mut ord);
    let mut r: Vec<BibEntry> = Vec::new();
    let mut i: usize = 0;
    while i < ord.len()
        invariant
            i <= ord@.len(),
            redm == red@.map_values(|e: BibEntry| e@),
            ord@.map_values(|s: String| s@) == cited_order(cm),
            r@.len() == i,
            forall|j: int|
                0 <= j < i ==> (#[trigger] r@[j])@ == (BibModel {
                    key: cited_order(cm)[j],
                    text: text_for(redm, cited_order(cm)[j]),
                }),
        decreases ord@.len() - i,
    {
        let text = text_for_run(red, 0, &ord[i]);
        let e = BibEntry { key: ord[i].clone(), text };
        r.push(e);
        proof {
            assert(ord@[i as int]@ == cited_order(cm)[i as int]);
        }
        i = i + 1;
    }
    proof {
        assert(r@.map_values(|e: BibEntry| e@) =~= minimal_bib_spec(cm, redm));
    }
    r
}

/// The whole planning stage: clusters the raw bibliography, rewrites every
/// citation through the canonical-key table, and builds the minimal
/// bibliography in first-citation order.
pub fn take_used(raw_bib: &Vec<BibEntry>, cites: &Vec<Cite>, th: &Threshold) -> (r: (Vec<Cite>, Vec<
    BibEntry,
>))
    ensures
        ({
            let bibm = raw_bib@.map_values(|e: BibEntry| e@);
            let cm = cites@.map_values(|c: Cite| c@);
            exists|cv: Seq<Seq<usize>>, reps: Map<Seq<char>, Seq<char>>, redm: Seq<BibModel>|
                {
                    &&& components_ok(bibm, *th, cv)
                    &&& #[trigger] reps_match(bibm, cv, reps)
                    &&& #[trigger] red_match(bibm, cv, redm)
                    &&& r.0@.len() == cm.len()
                    &&& forall|c: int|
                        0 <= c < cm.len() ==> ((#[trigger] r.0@[c])@.keys == dedup_first(
                            remap_keys(reps, cm[c].keys),
                        ) && r.0@[c]@.kind == cm[c].kind && r.0@[c]@.raw == cm[c].raw)
                    &&& r.1@.map_values(|e: BibEntry| e@) == minimal_bib_spec(
                        r.0@.map_values(|c: Cite| c@),
                        redm,
                    )
                }
        }),
{
    let (reps, red) = crate::cluster::reduce_bib(raw_bib, th);
    let cc = clean_cites(cites, &reps);
    let mb = minimal_bib(&cc, &red);
    proof {
        let bibm = raw_bib@.map_values(|e: BibEntry| e@);
        let cv = choose|cv: Seq<Seq<usize>>|
            {
                &&& #[trigger] components_ok(bibm, *th, cv)
                &&& reps_match(bibm, cv, reps@)
                &&& red_match(bibm, cv, red@.map_values(|e: BibEntry| e@))
            };
    }
    (cc, mb)
}

} // verus!
