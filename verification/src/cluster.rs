//! Similarity clustering over bibliography entries: two entries are joined
//! when their texts lie within a normalized edit-distance threshold or when
//! they declare the same key; connected components of that graph are the
//! clusters of duplicates.
use crate::distance::{edit_distance, lemma_lev_sym, lev};
use crate::extract::{BibEntry, BibModel};
use vstd::pervasive::VecAdditionalExecFns;
use vstd::prelude::*;
use vstd::string::StrSliceExecFns;

verus! {

/// The similarity cutoff, as the exact ratio `num / den`.
#[derive(Clone, Copy, PartialEq, Eq, Structural, Debug)]
pub struct Threshold {
    pub num: u32,
    pub den: u32,
}

/// Two entry texts lie within the threshold: twice their edit distance,
/// normalized by the sum of their lengths, is at most `num / den`. Two empty
/// texts have no defined ratio and never come close this way.
pub open spec fn close_enough(a: Seq<char>, b: Seq<char>, th: Threshold) -> bool {
    a.len() + b.len() > 0 && 2 * lev(a, b) * th.den <= th.num * (a.len() + b.len())
}

/// The similarity graph: distinct entries are adjacent when they share a key
/// or their texts lie within the threshold.
pub open spec fn edge(bibm: Seq<BibModel>, th: Threshold, i: int, j: int) -> bool {
    &&& 0 <= i < bibm.len()
    &&& 0 <= j < bibm.len()
    &&& i != j
    &&& (bibm[i].key == bibm[j].key || close_enough(bibm[i].text, bibm[j].text, th))
}

/// Adjacency does not depend on the order of the pair.
pub proof fn lemma_edge_sym(bibm: Seq<BibModel>, th: Threshold, i: int, j: int)
    ensures
        edge(bibm, th, i, j) == edge(bibm, th, j, i),
{
    if 0 <= i < bibm.len() && 0 <= j < bibm.len() {
        lemma_lev_sym(bibm[i].text, bibm[j].text);
    }
}

/// The index `x` occurs in `s`.
pub open spec fn seq_has(s: Seq<usize>, x: int) -> bool {
    exists|k: int| 0 <= k < s.len() && (#[trigger] s[k]) as int == x
}

/// Some component holds the index `x`.
pub open spec fn comps_contain(cv: Seq<Seq<usize>>, x: int) -> bool {
    exists|ci: int| 0 <= ci < cv.len() && seq_has(#[trigger] cv[ci], x)
}

/// `p` walks from `x` to `y` along graph edges.
pub open spec fn is_path(
    bibm: Seq<BibModel>,
    th: Threshold,
    p: Seq<usize>,
    x: int,
    y: int,
) -> bool {
    &&& p.len() >= 1
    &&& p[0] as int == x
    &&& p.last() as int == y
    &&& forall|t: int|
        0 <= t < p.len() - 1 ==> edge(bibm, th, (#[trigger] p[t]) as int, p[t + 1] as int)
}

/// Some walk along graph edges joins `x` and `y`.
pub open spec fn connected(bibm: Seq<BibModel>, th: Threshold, x: int, y: int) -> bool {
    exists|p: Seq<usize>| is_path(bibm, th, p, x, y)
}

/// Every index reaches itself.
pub proof fn lemma_connected_self(bibm: Seq<BibModel>, th: Threshold, x: int)
    requires
        0 <= x <= usize::MAX,
    ensures
        connected(bibm, th, x, x),
{
    let p = seq![x as usize];
    assert(is_path(bibm, th, p, x, x));
}

/// A walk extends across one more edge.
pub proof fn lemma_connected_step(bibm: Seq<BibModel>, th: Threshold, x: int, y: int, z: int)
    requires
        connected(bibm, th, x, y),
        edge(bibm, th, y, z),
        0 <= z <= usize::MAX,
    ensures
        connected(bibm, th, x, z),
{
    let p = choose|p: Seq<usize>| is_path(bibm, th, p, x, y);
    let q = p.push(z as usize);
    assert forall|t: int| 0 <= t < q.len() - 1 implies edge(
        bibm,
        th,
        (#[trigger] q[t]) as int,
        q[t + 1] as int,
    ) by {
        if t < p.len() - 1 {
            assert(q[t] == p[t] && q[t + 1] == p[t + 1]);
        } else {
            assert(q[t] == p.last() && q[t + 1] == z as usize);
        }
    }
    assert(is_path(bibm, th, q, x, z));
}

/// What [`find_connected_components`] promises of its result `cv`, except that
/// every index is covered: the components are nonempty, disjoint,
/// duplicate-free lists of in-range indices; no edge leaves a component; every
/// member is reachable from the component's first member, which is also its
/// smallest.
pub open spec fn comps_partial_ok(bibm: Seq<BibModel>, th: Threshold, cv: Seq<Seq<usize>>) -> bool {
    &&& forall|ci: int| 0 <= ci < cv.len() ==> (#[trigger] cv[ci]).len() >= 1
    &&& forall|ci: int, k: int|
        0 <= ci < cv.len() && 0 <= k < cv[ci].len() ==> (#[trigger] cv[ci][k]) < bibm.len()
    &&& forall|ci: int, cj: int, x: int|
        #![trigger seq_has(cv[ci], x), seq_has(cv[cj], x)]
        0 <= ci < cv.len() && 0 <= cj < cv.len() && ci != cj ==> !(seq_has(cv[ci], x) && seq_has(
            cv[cj],
            x,
        ))
    &&& forall|ci: int, k1: int, k2: int|
        #![trigger cv[ci][k1], cv[ci][k2]]
        0 <= ci < cv.len() && 0 <= k1 < cv[ci].len() && 0 <= k2 < cv[ci].len() && cv[ci][k1]
            == cv[ci][k2] ==> k1 == k2
    &&& forall|ci: int, x: int, y: int|
        #![trigger seq_has(cv[ci], x), edge(bibm, th, x, y)]
        0 <= ci < cv.len() && seq_has(cv[ci], x) && edge(bibm, th, x, y) ==> seq_has(cv[ci], y)
    &&& forall|ci: int, k: int|
        0 <= ci < cv.len() && 0 <= k < cv[ci].len() ==> connected(
            bibm,
            th,
            cv[ci][0] as int,
            (#[trigger] cv[ci][k]) as int,
        )
    &&& forall|ci: int, k: int|
        0 <= ci < cv.len() && 0 <= k < cv[ci].len() ==> cv[ci][0] <= (#[trigger] cv[ci][k])
}

/// The connected components of the similarity graph: a partition of all entry
/// indices into edge-closed, internally connected groups, each led by its
/// smallest index.
pub open spec fn components_ok(bibm: Seq<BibModel>, th: Threshold, cv: Seq<Seq<usize>>) -> bool {
    &&& comps_partial_ok(bibm, th, cv)
    &&& forall|x: int| 0 <= x < bibm.len() ==> comps_contain(cv, x)
}

/// Entries that share a key always land in the same component, whatever their
/// text distance.
pub proof fn lemma_same_key_same_component(
    bibm: Seq<BibModel>,
    th: Threshold,
    cv: Seq<Seq<usize>>,
    i: int,
    j: int,
    ci: int,
    cj: int,
)
    requires
        components_ok(bibm, th, cv),
        0 <= i < bibm.len(),
        0 <= j < bibm.len(),
        bibm[i].key == bibm[j].key,
        0 <= ci < cv.len(),
        seq_has(cv[ci], i),
        0 <= cj < cv.len(),
        seq_has(cv[cj], j),
    ensures
        ci == cj,
{
    if i == j {
        assert(seq_has(cv[ci], i) && seq_has(cv[cj], i));
    } else {
        assert(edge(bibm, th, i, j));
        assert(seq_has(cv[ci], j));
    }
}

/// An edge into a finished component comes from that component: closure holds
/// in both directions, since adjacency is symmetric.
proof fn lemma_neighbor_not_in_old(
    bibm: Seq<BibModel>,
    th: Threshold,
    cv: Seq<Seq<usize>>,
    x: int,
    y: int,
)
    requires
        comps_partial_ok(bibm, th, cv),
        edge(bibm, th, x, y),
        comps_contain(cv, y),
    ensures
        comps_contain(cv, x),
{
    lemma_edge_sym(bibm, th, x, y);
    let ci = choose|ci: int| 0 <= ci < cv.len() && seq_has(#[trigger] cv[ci], y);
    assert(edge(bibm, th, y, x));
    assert(seq_has(cv[ci], x));
    assert(comps_contain(cv, x));
}

/// A duplicate-free list of indices below `n` has at most `n` members.
proof fn lemma_nodup_bounded_len(s: Seq<usize>, n: nat)
    requires
        s.no_duplicates(),
        forall|k: int| 0 <= k < s.len() ==> ((#[trigger] s[k]) as nat) < n,
    ensures
        s.len() <= n,
{
    let si = s.map_values(|v: usize| v as int);
    assert(si.no_duplicates());
    si.unique_seq_to_set();
    let rng = vstd::set_lib::set_int_range(0, n as int);
    vstd::set_lib::lemma_int_range(0, n as int);
    assert(si.to_set().subset_of(rng)) by {
        assert forall|e: int| si.to_set().contains(e) implies rng.contains(e) by {
            let k = choose|k: int| 0 <= k < si.len() && si[k] == e;
            assert(s[k] as int == e);
        }
    }
    vstd::set_lib::lemma_len_subset(si.to_set(), rng);
}

fn edge_run(bib: &Vec<BibEntry>, th: &Threshold, i: usize, j: usize) -> (b: bool)
    requires
        i < bib@.len(),
        j < bib@.len(),
    ensures
        b == edge(bib@.map_values(|e: BibEntry| e@), *th, i as int, j as int),
{
    let ghost bibm = bib@.map_values(|e: BibEntry| e@);
    if i == j {
        return false;
    }
    if bib[i].key == bib[j].key {
        return true;
    }
    let la = bib[i].text.as_str().unicode_len();
    let lb = bib[j].text.as_str().unicode_len();
    if la == 0 && lb == 0 {
        return false;
    }
    let d = edit_distance(bib[i].text.as_str(), bib[j].text.as_str());
    proof {
        assert((2 * (d as u128) * (th.den as u128)) as int == 2 * (d as int) * (th.den as int)
            && 2 * (d as u128) * (th.den as u128) <= u128::MAX) by (nonlinear_arith)
            requires
                d <= u64::MAX,
                th.den <= u32::MAX,
        ;
        assert(((th.num as u128) * ((la as u128) + (lb as u128))) as int == (th.num as int) * (
        la as int + lb as int) && (th.num as u128) * ((la as u128) + (lb as u128)) <= u128::MAX)
            by (nonlinear_arith)
            requires
                la <= u64::MAX,
                lb <= u64::MAX,
                th.num <= u32::MAX,
        ;
    }
    let lhs: u128 = 2 * (d as u128) * (th.den as u128);
    let rhs: u128 = (th.num as u128) * ((la as u128) + (lb as u128));
    lhs <= rhs
}

/// The connected components of the similarity graph over `bib`: a search
/// seeds at each smallest index not yet placed and walks edges depth first,
/// so each component lists its smallest index first.
pub fn find_connected_components(bib: &Vec<BibEntry>, th: &Threshold) -> (comps: Vec<Vec<usize>>)
    ensures
        components_ok(
            bib@.map_values(|e: BibEntry| e@),
            *th,
            comps@.map_values(|c: Vec<usize>| c@),
        ),
{
    let ghost bibm = bib@.map_values(|e: BibEntry| e@);
    let n = bib.len();
    let mut mat: Vec<Vec<bool>> = Vec::new();
    let mut i: usize = 0;
    while i < n
        invariant
            n == bib@.len(),
            bibm == bib@.map_values(|e: BibEntry| e@),
            i <= n,
            mat@.len() == i,
            forall|a: int| 0 <= a < i ==> (#[trigger] mat@[a])@.len() == n,
            forall|a: int, b: int|
                0 <= a < i && 0 <= b < n ==> (#[trigger] mat@[a]@[b]) == edge(bibm, *th, a, b),
        decreases n - i,
    {
        let mut row: Vec<bool> = Vec::new();
        let mut j: usize = 0;
        while j < n
            invariant
                n == bib@.len(),
                bibm == bib@.map_values(|e: BibEntry| e@),
                i < n,
                j <= n,
                row@.len() == j,
                forall|b: int|
                    0 <= b < j ==> (#[trigger] row@[b]) == edge(bibm, *th, i as int, b),
            decreases n - j,
        {
            let e = edge_run(bib, th, i, j);
            row.push(e);
            j = j + 1;
        }
        mat.push(row);
        i = i + 1;
    }
    let mut visited: Vec<bool> = Vec::new();
    let mut v0: usize = 0;
    while v0 < n
        invariant
            v0 <= n,
            visited@.len() == v0,
            forall|x: int| 0 <= x < v0 ==> !(#[trigger] visited@[x]),
        decreases n - v0,
    {
        visited.push(false);
        v0 = v0 + 1;
    }
    let mut comps: Vec<Vec<usize>> = Vec::new();
    let mut s: usize = 0;
    while s < n
        invariant
            n == bib@.len(),
            bibm == bib@.map_values(|e: BibEntry| e@),
            s <= n,
            mat@.len() == n,
            forall|a: int| 0 <= a < n ==> (#[trigger] mat@[a])@.len() == n,
            forall|a: int, b: int|
                0 <= a < n && 0 <= b < n ==> (#[trigger] mat@[a]@[b]) == edge(bibm, *th, a, b),
            visited@.len() == n,
            forall|x: int|
                0 <= x < n ==> (#[trigger] visited@[x]) == comps_contain(
                    comps@.map_values(|c: Vec<usize>| c@),
                    x,
                ),
            forall|x: int| 0 <= x < s ==> #[trigger] visited@[x],
            comps_partial_ok(bibm, *th, comps@.map_values(|c: Vec<usize>| c@)),
        decreases n - s,
    {
        if !visited[s] {
            let ghost cv0 = comps@.map_values(|c: Vec<usize>| c@);
            let mut stack: Vec<usize> = Vec::new();
            stack.push(s);
            visited.set(s, true);
            let mut cc: Vec<usize> = Vec::new();
            proof {
                assert(stack@ =~= seq![s]);
                lemma_connected_self(bibm, *th, s as int);
                assert(stack@[0] == s);
                assert(seq_has(stack@, s as int));
                assert(!comps_contain(cv0, s as int));
                assert forall|z: int| seq_has(stack@, z) implies z == s as int by {
                    let k = choose|k: int|
                        0 <= k < stack@.len() && (#[trigger] stack@[k]) as int == z;
                }
                assert forall|z: int| 0 <= z < n implies ((#[trigger] visited@[z]) == (
                comps_contain(cv0, z) || seq_has(cc@, z) || seq_has(stack@, z))) by {
                    if z != s as int && seq_has(stack@, z) {
                        assert(z == s as int);
                    }
                }
            }
            while stack.len() > 0
                invariant
                    n == bib@.len(),
                    bibm == bib@.map_values(|e: BibEntry| e@),
                    s < n,
                    mat@.len() == n,
                    forall|a: int| 0 <= a < n ==> (#[trigger] mat@[a])@.len() == n,
                    forall|a: int, b: int|
                        0 <= a < n && 0 <= b < n ==> (#[trigger] mat@[a]@[b]) == edge(
                            bibm,
                            *th,
                            a,
                            b,
                        ),
                    visited@.len() == n,
                    cv0 == comps@.map_values(|c: Vec<usize>| c@),
                    comps_partial_ok(bibm, *th, cv0),
                    forall|x: int| 0 <= x < s ==> #[trigger] visited@[x],
                    forall|x: int|
                        0 <= x < n ==> (#[trigger] visited@[x]) == (comps_contain(cv0, x)
                            || seq_has(cc@, x) || seq_has(stack@, x)),
                    forall|x: int|
                        #![trigger seq_has(cc@, x)]
                        comps_contain(cv0, x) ==> !seq_has(cc@, x),
                    forall|x: int|
                        #![trigger seq_has(stack@, x)]
                        comps_contain(cv0, x) ==> !seq_has(stack@, x),
                    forall|x: int|
                        #![trigger seq_has(cc@, x), seq_has(stack@, x)]
                        !(seq_has(cc@, x) && seq_has(stack@, x)),
                    cc@.no_duplicates(),
                    stack@.no_duplicates(),
                    forall|k: int| 0 <= k < cc@.len() ==> (#[trigger] cc@[k]) < n,
                    forall|k: int| 0 <= k < stack@.len() ==> (#[trigger] stack@[k]) < n,
                    forall|k: int| 0 <= k < cc@.len() ==> (#[trigger] cc@[k]) >= s,
                    forall|k: int| 0 <= k < stack@.len() ==> (#[trigger] stack@[k]) >= s,
                    forall|k: int|
                        0 <= k < cc@.len() ==> connected(
                            bibm,
                            *th,
                            s as int,
                            (#[trigger] cc@[k]) as int,
                        ),
                    forall|k: int|
                        0 <= k < stack@.len() ==> connected(
                            bibm,
                            *th,
                            s as int,
                            (#[trigger] stack@[k]) as int,
                        ),
                    forall|a: int, b: int|
                        #![trigger seq_has(cc@, a), edge(bibm, *th, a, b)]
                        seq_has(cc@, a) && edge(bibm, *th, a, b) ==> seq_has(cc@, b) || seq_has(
                            stack@,
                            b,
                        ),
                    cc@.len() > 0 ==> cc@[0] == s,
                    cc@.len() == 0 ==> stack@ == seq![s],
                decreases n - cc@.len(),
            {
                let ghost st_before = stack@;
                let xo = stack.pop();
                let x = match xo {
                    Some(v) => v,
                    None => {
                        proof {
                            assert(false);
                        }
                        0
                    },
                };
                proof {
                    assert(st_before.last() == x);
                    assert(st_before[st_before.len() - 1] == x);
                    assert(stack@ == st_before.drop_last());
                    assert(seq_has(st_before, x as int));
                    assert forall|b: int| seq_has(stack@, b) implies seq_has(st_before, b) by {
                        let k = choose|k: int|
                            0 <= k < stack@.len() && (#[trigger] stack@[k]) as int == b;
                        assert(st_before[k] as int == b);
                    }
                    assert(!seq_has(stack@, x as int)) by {
                        if seq_has(stack@, x as int) {
                            let k = choose|k: int|
                                0 <= k < stack@.len() && (#[trigger] stack@[k]) as int
                                    == x as int;
                            assert(st_before[k] == st_before[st_before.len() - 1]);
                        }
                    }
                    assert(!seq_has(cc@, x as int));
                    assert(!comps_contain(cv0, x as int));
                    assert(x < n && x >= s);
                    assert(connected(bibm, *th, s as int, x as int));
                }
                let ghost cc_old = cc@;
                cc.push(x);
                let ghost cc_now = cc@;
                proof {
                    assert(cc_now == cc_old.push(x));
                    assert(cc_now.last() == x);
                    assert(cc_now[cc_now.len() - 1] == x);
                    assert(seq_has(cc_now, x as int));
                    assert forall|b: int| seq_has(cc_now, b) implies seq_has(cc_old, b) || b
                        == x as int by {
                        let k = choose|k: int|
                            0 <= k < cc_now.len() && (#[trigger] cc_now[k]) as int == b;
                        if k < cc_now.len() - 1 {
                            assert(cc_old[k] as int == b);
                        }
                    }
                    assert forall|b: int| seq_has(cc_old, b) implies seq_has(cc_now, b) by {
                        let k = choose|k: int|
                            0 <= k < cc_old.len() && (#[trigger] cc_old[k]) as int == b;
                        assert(cc_now[k] as int == b);
                    }
                    assert(cc_now.no_duplicates()) by {
                        assert forall|k1: int, k2: int|
                            0 <= k1 < cc_now.len() && 0 <= k2 < cc_now.len() && k1
                                != k2 implies cc_now[k1] != cc_now[k2] by {
                            if cc_now[k1] == cc_now[k2] {
                                if k1 == cc_now.len() - 1 {
                                    assert(cc_old[k2] == cc_now[k2]);
                                    assert(seq_has(cc_old, x as int));
                                } else if k2 == cc_now.len() - 1 {
                                    assert(cc_old[k1] == cc_now[k1]);
                                    assert(seq_has(cc_old, x as int));
                                }
                            }
                        }
                    }
                    if cc_old.len() == 0 {
                        assert(st_before == seq![s]);
                        assert(x == s);
                        assert(cc_now[0] == s);
                    } else {
                        assert(cc_now[0] == cc_old[0]);
                    }
                    assert forall|z: int| 0 <= z < n implies ((#[trigger] visited@[z]) == (
                    comps_contain(cv0, z) || seq_has(cc_now, z) || seq_has(stack@, z))) by {
                        if seq_has(st_before, z) {
                            let k = choose|k: int|
                                0 <= k < st_before.len() && (#[trigger] st_before[k]) as int
                                    == z;
                            if k < st_before.len() - 1 {
                                assert(stack@[k] as int == z);
                            } else {
                                assert(z == x as int);
                            }
                        }
                    }
                    assert forall|z: int| comps_contain(cv0, z) implies !seq_has(stack@, z) by {
                        if seq_has(stack@, z) {
                            assert(seq_has(st_before, z));
                        }
                    }
                    assert forall|z: int| comps_contain(cv0, z) implies !seq_has(cc_now, z) by {
                        if seq_has(cc_now, z) {
                            assert(seq_has(cc_old, z) || z == x as int);
                        }
                    }
                    assert forall|z: int| !(seq_has(cc_now, z) && seq_has(stack@, z)) by {
                        if seq_has(cc_now, z) && seq_has(stack@, z) {
                            assert(seq_has(cc_old, z) || z == x as int);
                            assert(seq_has(st_before, z));
                        }
                    }
                    assert forall|a: int, b: int|
                        #![trigger seq_has(cc_now, a), edge(bibm, *th, a, b)]
                        seq_has(cc_now, a) && edge(bibm, *th, a, b) implies seq_has(cc_now, b)
                            || seq_has(stack@, b) || (a == x as int && b >= 0) by {
                        if seq_has(cc_old, a) && edge(bibm, *th, a, b) {
                            if seq_has(st_before, b) {
                                let k = choose|k: int|
                                    0 <= k < st_before.len() && (#[trigger] st_before[k]) as int
                                        == b;
                                if k < st_before.len() - 1 {
                                    assert(stack@[k] as int == b);
                                } else {
                                    assert(b == x as int);
                                }
                            }
                        }
                    }
                }
                let mut y: usize = 0;
                while y < n
                    invariant
                        n == bib@.len(),
                        bibm == bib@.map_values(|e: BibEntry| e@),
                        s < n,
                        x < n,
                        y <= n,
                        mat@.len() == n,
                        forall|a: int| 0 <= a < n ==> (#[trigger] mat@[a])@.len() == n,
                        forall|a: int, b: int|
                            0 <= a < n && 0 <= b < n ==> (#[trigger] mat@[a]@[b]) == edge(
                                bibm,
                                *th,
                                a,
                                b,
                            ),
                        visited@.len() == n,
                        cv0 == comps@.map_values(|c: Vec<usize>| c@),
                        comps_partial_ok(bibm, *th, cv0),
                        forall|z: int| 0 <= z < s ==> #[trigger] visited@[z],
                        forall|z: int|
                            0 <= z < n ==> (#[trigger] visited@[z]) == (comps_contain(cv0, z)
                                || seq_has(cc@, z) || seq_has(stack@, z)),
                        forall|z: int|
                            #![trigger seq_has(cc@, z)]
                            comps_contain(cv0, z) ==> !seq_has(cc@, z),
                        forall|z: int|
                            #![trigger seq_has(stack@, z)]
                            comps_contain(cv0, z) ==> !seq_has(stack@, z),
                        forall|z: int|
                            #![trigger seq_has(cc@, z), seq_has(stack@, z)]
                            !(seq_has(cc@, z) && seq_has(stack@, z)),
                        cc@.no_duplicates(),
                        stack@.no_duplicates(),
                        forall|k: int| 0 <= k < cc@.len() ==> (#[trigger] cc@[k]) < n,
                        forall|k: int| 0 <= k < stack@.len() ==> (#[trigger] stack@[k]) < n,
                        forall|k: int| 0 <= k < cc@.len() ==> (#[trigger] cc@[k]) >= s,
                        forall|k: int| 0 <= k < stack@.len() ==> (#[trigger] stack@[k]) >= s,
                        forall|k: int|
                            0 <= k < cc@.len() ==> connected(
                                bibm,
                                *th,
                                s as int,
                                (#[trigger] cc@[k]) as int,
                            ),
                        forall|k: int|
                            0 <= k < stack@.len() ==> connected(
                                bibm,
                                *th,
                                s as int,
                                (#[trigger] stack@[k]) as int,
                            ),
                        forall|a: int, b: int|
                            #![trigger seq_has(cc@, a), edge(bibm, *th, a, b)]
                            seq_has(cc@, a) && edge(bibm, *th, a, b) ==> seq_has(cc@, b)
                                || seq_has(stack@, b) || (a == x as int && b >= y),
                        cc@.len() > 0 && cc@[0] == s,
                        cc@ == cc_now,
                        seq_has(cc@, x as int),
                        connected(bibm, *th, s as int, x as int),
                    decreases n - y,
                {
                    if mat[x][y] {
                        proof {
                            assert(edge(bibm, *th, x as int, y as int));
                        }
                        if !visited[y] {
                            proof {
                                assert(!seq_has(cc@, y as int));
                                assert(!comps_contain(cv0, y as int));
                            }
                            visited.set(y, true);
                            let ghost st_old = stack@;
                            stack.push(y);
                            proof {
                                lemma_connected_step(bibm, *th, s as int, x as int, y as int);
                                assert(stack@ == st_old.push(y));
                                assert(stack@[stack@.len() - 1] == y);
                                assert(seq_has(stack@, y as int));
                                assert forall|b: int| seq_has(stack@, b) implies seq_has(
                                    st_old,
                                    b,
                                ) || b == y as int by {
                                    let k = choose|k: int|
                                        0 <= k < stack@.len() && (#[trigger] stack@[k]) as int
                                            == b;
                                    if k < stack@.len() - 1 {
                                        assert(st_old[k] as int == b);
                                    }
                                }
                                assert forall|b: int| seq_has(st_old, b) implies seq_has(
                                    stack@,
                                    b,
                                ) by {
                                    let k = choose|k: int|
                                        0 <= k < st_old.len() && (#[trigger] st_old[k]) as int
                                            == b;
                                    assert(stack@[k] as int == b);
                                }
                                assert(stack@.no_duplicates()) by {
                                    assert forall|k1: int, k2: int|
                                        0 <= k1 < stack@.len() && 0 <= k2 < stack@.len() && k1
                                            != k2 implies stack@[k1] != stack@[k2] by {
                                        if stack@[k1] == stack@[k2] {
                                            if k1 == stack@.len() - 1 {
                                                assert(st_old[k2] == stack@[k2]);
                                                assert(seq_has(st_old, y as int));
                                            } else if k2 == stack@.len() - 1 {
                                                assert(st_old[k1] == stack@[k1]);
                                                assert(seq_has(st_old, y as int));
                                            }
                                        }
                                    }
                                }
                                assert forall|z: int| comps_contain(cv0, z) implies !seq_has(
                                    stack@,
                                    z,
                                ) by {
                                    if seq_has(stack@, z) {
                                        assert(seq_has(st_old, z) || z == y as int);
                                    }
                                }
                                assert forall|z: int| !(seq_has(cc@, z) && seq_has(stack@, z))
                                    by {
                                    if seq_has(cc@, z) && seq_has(stack@, z) {
                                        assert(seq_has(st_old, z) || z == y as int);
                                    }
                                }
                            }
                        } else {
                            proof {
                                if comps_contain(cv0, y as int) {
                                    lemma_neighbor_not_in_old(
                                        bibm,
                                        *th,
                                        cv0,
                                        x as int,
                                        y as int,
                                    );
                                }
                                assert(seq_has(cc@, y as int) || seq_has(stack@, y as int));
                            }
                        }
                    }
                    y = y + 1;
                }
                proof {
                    lemma_nodup_bounded_len(cc@, n as nat);
                }
            }
            proof {
                assert(cc@.len() > 0);
            }
            let ghost cv1 = cv0.push(cc@);
            comps.push(cc);
            proof {
                assert(comps@.map_values(|c: Vec<usize>| c@) =~= cv1);
                assert forall|z: int| comps_contain(cv1, z) implies comps_contain(cv0, z)
                    || seq_has(cv1.last(), z) by {
                    let ci = choose|ci: int| 0 <= ci < cv1.len() && seq_has(#[trigger] cv1[ci], z);
                    if ci < cv0.len() {
                        assert(cv0[ci] == cv1[ci]);
                    }
                }
                assert forall|z: int| 0 <= z < n implies (visited@[z] == comps_contain(cv1, z))
                    by {
                    if visited@[z] {
                        if comps_contain(cv0, z) {
                            let ci = choose|ci: int|
                                0 <= ci < cv0.len() && seq_has(#[trigger] cv0[ci], z);
                            assert(cv1[ci] == cv0[ci]);
                            assert(comps_contain(cv1, z));
                        } else {
                            assert(seq_has(cv1[cv0.len() as int], z));
                            assert(comps_contain(cv1, z));
                        }
                    }
                }
                assert(comps_partial_ok(bibm, *th, cv1)) by {
                    assert forall|ci: int, cj: int, z: int|
                        #![trigger seq_has(cv1[ci], z), seq_has(cv1[cj], z)]
                        0 <= ci < cv1.len() && 0 <= cj < cv1.len() && ci != cj implies !(seq_has(
                        cv1[ci],
                        z,
                    ) && seq_has(cv1[cj], z)) by {
                        if seq_has(cv1[ci], z) && seq_has(cv1[cj], z) {
                            if ci < cv0.len() && cj < cv0.len() {
                                assert(cv0[ci] == cv1[ci] && cv0[cj] == cv1[cj]);
                            } else if ci < cv0.len() {
                                assert(cv0[ci] == cv1[ci]);
                                assert(comps_contain(cv0, z));
                            } else if cj < cv0.len() {
                                assert(cv0[cj] == cv1[cj]);
                                assert(comps_contain(cv0, z));
                            }
                        }
                    }
                    assert forall|ci: int, a: int, b: int|
                        #![trigger seq_has(cv1[ci], a), edge(bibm, *th, a, b)]
                        0 <= ci < cv1.len() && seq_has(cv1[ci], a) && edge(
                            bibm,
                            *th,
                            a,
                            b,
                        ) implies seq_has(cv1[ci], b) by {
                        if ci < cv0.len() {
                            assert(cv0[ci] == cv1[ci]);
                            assert(seq_has(cv0[ci], a));
                        }
                    }
                }
            }
        }
        s = s + 1;
    }
    proof {
        let cv = comps@.map_values(|c: Vec<usize>| c@);
        assert forall|x: int| 0 <= x < n implies comps_contain(cv, x) by {
            assert(visited@[x]);
        }
    }
    comps
}

/// The canonical entry of component `ci`: its first member, the smallest
/// extraction index in the cluster.
pub open spec fn canonical_of(bibm: Seq<BibModel>, cv: Seq<Seq<usize>>, ci: int) -> BibModel {
    bibm[cv[ci][0] as int]
}

/// What the remap table holds: exactly the keys of non-canonical members
/// whose key differs from their cluster's canonical key, each sent to that
/// canonical key.
pub open spec fn reps_match(
    bibm: Seq<BibModel>,
    cv: Seq<Seq<usize>>,
    m: Map<Seq<char>, Seq<char>>,
) -> bool {
    &&& forall|ci: int, k: int|
        #![trigger cv[ci][k]]
        0 <= ci < cv.len() && 1 <= k < cv[ci].len() && bibm[cv[ci][k] as int].key != bibm[cv[ci][0] as int].key
            ==> m.contains_key(bibm[cv[ci][k] as int].key) && m[bibm[cv[ci][k] as int].key]
            == bibm[cv[ci][0] as int].key
    &&& forall|key: Seq<char>|
        #![trigger m.contains_key(key)]
        m.contains_key(key) ==> exists|ci: int, k: int|
            #![trigger cv[ci][k]]
            0 <= ci < cv.len() && 1 <= k < cv[ci].len() && key == bibm[cv[ci][k] as int].key
                && key != bibm[cv[ci][0] as int].key && m[key] == bibm[cv[ci][0] as int].key
}

/// The canonical entries, one per component, in component order.
pub open spec fn canon_seq(bibm: Seq<BibModel>, cv: Seq<Seq<usize>>) -> Seq<BibModel> {
    Seq::new(cv.len(), |ci: int| canonical_of(bibm, cv, ci))
}

/// Each entry's key comes no later than the next entry's key.
pub open spec fn sorted_keys(s: Seq<BibModel>) -> bool
    decreases s.len(),
{
    s.len() <= 1 || (!crate::keymap::str_lt(s[1].key, s[0].key) && sorted_keys(s.drop_first()))
}

/// What the reduced bibliography holds: one canonical entry per component,
/// every one of them, sorted by key.
pub open spec fn red_match(bibm: Seq<BibModel>, cv: Seq<Seq<usize>>, redm: Seq<BibModel>) -> bool {
    &&& redm.len() == cv.len()
    &&& forall|j: int| 0 <= j < redm.len() ==> canon_seq(bibm, cv).contains(#[trigger] redm[j])
    &&& forall|ci: int| 0 <= ci < cv.len() ==> redm.contains(#[trigger] canon_seq(bibm, cv)[ci])
    &&& sorted_keys(redm)
}

/// The first position in the key-sorted `out` whose key comes after `ek`.
fn insert_pos(ek: &[char], out: &Vec<BibEntry>, j: usize) -> (r: usize)
    requires
        j <= out@.len(),
        forall|a: int| 0 <= a < j ==> !crate::keymap::str_lt(ek@, (#[trigger] out@[a])@.key),
    ensures
        j <= r <= out@.len(),
        forall|a: int| 0 <= a < r ==> !crate::keymap::str_lt(ek@, (#[trigger] out@[a])@.key),
        r < out@.len() ==> crate::keymap::str_lt(ek@, out@[r as int]@.key),
    decreases out@.len() - j,
{
    if j >= out.len() {
        return j;
    }
    let ojc = crate::text::chars_vec(out[j].key.as_str());
    if crate::keymap::str_lt_run(ek, ojc.as_slice()) {
        j
    } else {
        insert_pos(ek, out, j + 1)
    }
}

proof fn lemma_sorted_insert(s: Seq<BibModel>, e: BibModel, j: int)
    requires
        sorted_keys(s),
        0 <= j <= s.len(),
        j > 0 ==> !crate::keymap::str_lt(e.key, s[j - 1].key),
        j < s.len() ==> crate::keymap::str_lt(e.key, s[j].key),
    ensures
        sorted_keys(s.insert(j, e)),
    decreases j,
{
    let t = s.insert(j, e);
    if j == 0 {
        if s.len() > 0 {
            crate::keymap::lemma_str_lt_trichotomy(e.key, s[0].key);
            assert(t[1] == s[0]);
        }
        assert(t.drop_first() =~= s);
    } else {
        assert(t.drop_first() =~= s.drop_first().insert(j - 1, e));
        assert(sorted_keys(s.drop_first()));
        lemma_sorted_insert(s.drop_first(), e, j - 1);
        assert(t[0] == s[0]);
        if j == 1 {
            assert(t[1] == e);
        } else {
            assert(t[1] == s[1]);
        }
    }
}

fn sort_by_key(v: Vec<BibEntry>) -> (r: Vec<BibEntry>)
    ensures
        ({
            let vm = v@.map_values(|e: BibEntry| e@);
            let rm = r@.map_values(|e: BibEntry| e@);
            &&& rm.len() == vm.len()
            &&& forall|j: int| 0 <= j < rm.len() ==> vm.contains(#[trigger] rm[j])
            &&& forall|l: int| 0 <= l < vm.len() ==> rm.contains(#[trigger] vm[l])
            &&& sorted_keys(rm)
        }),
{
    let ghost vm = v@.map_values(|e: BibEntry| e@);
    let mut out: Vec<BibEntry> = Vec::new();
    let mut i: usize = 0;
    while i < v.len()
        invariant
            i <= v@.len(),
            vm == v@.map_values(|e: BibEntry| e@),
            out@.len() == i,
            forall|jj: int| 0 <= jj < out@.len() ==> vm.contains((#[trigger] out@[jj])@),
            forall|l: int|
                0 <= l < i ==> exists|jj: int| 0 <= jj < out@.len() && out@[jj]@ == (
                #[trigger] vm[l]),
            sorted_keys(out@.map_values(|x: BibEntry| x@)),
        decreases v@.len() - i,
    {
        let e = BibEntry { key: v[i].key.clone(), text: v[i].text.clone() };
        let ekc = crate::text::chars_vec(e.key.as_str());
        let j = insert_pos(ekc.as_slice(), &out, 0);
        let ghost out_before = out@;
        let ghost om_old = out_before.map_values(|x: BibEntry| x@);
        proof {
            assert(e@ == vm[i as int]);
            assert(vm.contains(vm[i as int]));
        }
        out.insert(j, e);
        proof {
            let om_new = out@.map_values(|x: BibEntry| x@);
            assert forall|a: int| 0 <= a < j implies out@[a] == out_before[a] by {}
            assert forall|b: int| j < b < out@.len() implies out@[b] == out_before[b - 1] by {}
            assert(out@[j as int] == e);
            assert(om_new =~= om_old.insert(j as int, e@));
            assert(j > 0 ==> !crate::keymap::str_lt(e@.key, om_old[j - 1].key)) by {
                if j > 0 {
                    assert(om_old[j - 1] == out_before[j - 1]@);
                }
            }
            assert(j < om_old.len() ==> crate::keymap::str_lt(e@.key, om_old[j as int].key)) by {
                if j < om_old.len() {
                    assert(om_old[j as int] == out_before[j as int]@);
                }
            }
            lemma_sorted_insert(om_old, e@, j as int);
            assert forall|jj: int| 0 <= jj < out@.len() implies vm.contains(
                (#[trigger] out@[jj])@,
            ) by {
                if jj < j {
                    assert(out@[jj] == out_before[jj]);
                } else if jj > j {
                    assert(out@[jj] == out_before[jj - 1]);
                }
            }
            assert forall|l: int| 0 <= l < i + 1 implies exists|jj: int|
                0 <= jj < out@.len() && out@[jj]@ == (#[trigger] vm[l]) by {
                if l < i {
                    let jj = choose|jj: int| 0 <= jj < out_before.len() && out_before[jj]@ == vm[l];
                    if jj < j {
                        assert(out@[jj]@ == vm[l]);
                    } else {
                        assert(out@[jj + 1]@ == vm[l]);
                    }
                } else {
                    assert(out@[j as int]@ == vm[l]);
                }
            }
        }
        i = i + 1;
    }
    proof {
        let rm = out@.map_values(|x: BibEntry| x@);
        assert forall|j: int| 0 <= j < rm.len() implies vm.contains(#[trigger] rm[j]) by {
            assert(rm[j] == out@[j]@);
        }
        assert forall|l: int| 0 <= l < vm.len() implies rm.contains(#[trigger] vm[l]) by {
            let jj = choose|jj: int| 0 <= jj < out@.len() && out@[jj]@ == vm[l];
            assert(rm[jj] == vm[l]);
        }
    }
    out
}

/// Collapses the bibliography: clusters duplicates, keeps one canonical entry
/// per cluster (the first-extracted member), and returns the key-remapping
/// table beside the reduced, key-sorted bibliography.
pub fn reduce_bib(bib: &Vec<BibEntry>, th: &Threshold) -> (r: (crate::keymap::KeyMap, Vec<
    BibEntry,
>))
    ensures
        ({
            let bibm = bib@.map_values(|e: BibEntry| e@);
            exists|cv: Seq<Seq<usize>>|
                {
                    &&& #[trigger] components_ok(bibm, *th, cv)
                    &&& reps_match(bibm, cv, r.0@)
                    &&& red_match(bibm, cv, r.1@.map_values(|e: BibEntry| e@))
                }
        }),
{
    let ghost bibm = bib@.map_values(|e: BibEntry| e@);
    let comps = find_connected_components(bib, th);
    let ghost cv = comps@.map_values(|c: Vec<usize>| c@);
    let mut reps = crate::keymap::KeyMap::new();
    let mut red: Vec<BibEntry> = Vec::new();
    let mut ci: usize = 0;
    while ci < comps.len()
        invariant
            bibm == bib@.map_values(|e: BibEntry| e@),
            bib@.len() == bibm.len(),
            cv == comps@.map_values(|c: Vec<usize>| c@),
            comps@.len() == cv.len(),
            components_ok(bibm, *th, cv),
            ci <= cv.len(),
            red@.len() == ci,
            forall|j: int| 0 <= j < ci ==> (#[trigger] red@[j])@ == canonical_of(bibm, cv, j),
            forall|cj: int, k: int|
                #![trigger cv[cj][k]]
                0 <= cj < ci && 1 <= k < cv[cj].len() && bibm[cv[cj][k] as int].key
                    != bibm[cv[cj][0] as int].key ==> reps@.contains_key(
                    bibm[cv[cj][k] as int].key,
                ) && reps@[bibm[cv[cj][k] as int].key] == bibm[cv[cj][0] as int].key,
            forall|key: Seq<char>|
                #![trigger reps@.contains_key(key)]
                reps@.contains_key(key) ==> exists|cj: int, k: int|
                    #![trigger cv[cj][k]]
                    0 <= cj < cv.len() && 1 <= k < cv[cj].len() && key == bibm[cv[cj][k] as int].key
                        && key != bibm[cv[cj][0] as int].key && reps@[key]
                        == bibm[cv[cj][0] as int].key,
        decreases cv.len() - ci,
    {
        let comp = &comps[ci];
        proof {
            assert(cv[ci as int].len() >= 1);
            assert(comp@ == cv[ci as int]);
            assert(cv[ci as int][0] < bibm.len());
        }
        let c0 = comp[0];
        let centry = BibEntry { key: bib[c0].key.clone(), text: bib[c0].text.clone() };
        red.push(centry);
        let mut k: usize = 1;
        while k < comp.len()
            invariant
                bibm == bib@.map_values(|e: BibEntry| e@),
                bib@.len() == bibm.len(),
                cv == comps@.map_values(|c: Vec<usize>| c@),
                comps@.len() == cv.len(),
                components_ok(bibm, *th, cv),
                ci < cv.len(),
                comp@ == cv[ci as int],
                c0 == cv[ci as int][0],
                1 <= k <= comp@.len(),
                forall|cj: int, kk: int|
                    #![trigger cv[cj][kk]]
                    (0 <= cj < ci && 1 <= kk < cv[cj].len() || cj == ci && 1 <= kk < k)
                        && bibm[cv[cj][kk] as int].key != bibm[cv[cj][0] as int].key
                        ==> reps@.contains_key(bibm[cv[cj][kk] as int].key)
                        && reps@[bibm[cv[cj][kk] as int].key] == bibm[cv[cj][0] as int].key,
                forall|key: Seq<char>|
                    #![trigger reps@.contains_key(key)]
                    reps@.contains_key(key) ==> exists|cj: int, kk: int|
                        #![trigger cv[cj][kk]]
                        0 <= cj < cv.len() && 1 <= kk < cv[cj].len() && key
                            == bibm[cv[cj][kk] as int].key && key != bibm[cv[cj][0] as int].key
                            && reps@[key] == bibm[cv[cj][0] as int].key,
            decreases comp@.len() - k,
        {
            proof {
                assert(cv[ci as int][k as int] < bibm.len());
            }
            let i = comp[k];
            if !(bib[i].key == bib[c0].key) {
                let ghost m_old = reps@;
                reps.insert(bib[i].key.clone(), bib[c0].key.clone());
                proof {
                    let key = bibm[cv[ci as int][k as int] as int].key;
                    assert forall|cj: int, kk: int|
                        #![trigger cv[cj][kk]]
                        (0 <= cj < ci && 1 <= kk < cv[cj].len() || cj == ci as int && 1 <= kk < k
                            + 1) && bibm[cv[cj][kk] as int].key
                            != bibm[cv[cj][0] as int].key implies reps@.contains_key(
                        bibm[cv[cj][kk] as int].key,
                    ) && reps@[bibm[cv[cj][kk] as int].key] == bibm[cv[cj][0] as int].key by {
                        let k2 = bibm[cv[cj][kk] as int].key;
                        if k2 == key {
                            // the same key occurs in component `cj` too, so the
                            // two members are adjacent and the components meet
                            if cj != ci as int {
                                lemma_same_key_same_component(
                                    bibm,
                                    *th,
                                    cv,
                                    cv[cj][kk] as int,
                                    cv[ci as int][k as int] as int,
                                    cj,
                                    ci as int,
                                );
                            }
                        } else {
                            assert(m_old.contains_key(k2) ==> reps@.contains_key(k2) && reps@[k2]
                                == m_old[k2]);
                        }
                    }
                }
            } else {
                proof {
                    assert(bibm[cv[ci as int][k as int] as int].key
                        == bibm[cv[ci as int][0] as int].key);
                }
            }
            k = k + 1;
        }
        ci = ci + 1;
    }
    let red_sorted = sort_by_key(red);
    proof {
        let redm0 = red@.map_values(|e: BibEntry| e@);
        let redm = red_sorted@.map_values(|e: BibEntry| e@);
        assert(redm0 =~= canon_seq(bibm, cv)) by {
            assert forall|j: int| 0 <= j < redm0.len() implies redm0[j] == canon_seq(bibm, cv)[j]
                by {
                assert(redm0[j] == red@[j]@);
            }
        }
        assert forall|c: int| 0 <= c < cv.len() implies redm.contains(
            #[trigger] canon_seq(bibm, cv)[c],
        ) by {
            assert(redm.contains(redm0[c]));
        }
        assert(red_match(bibm, cv, redm));
        assert(components_ok(bibm, *th, cv) && reps_match(bibm, cv, reps@) && red_match(
            bibm,
            cv,
            redm,
        ));
    }
    (reps, red_sorted)
}

} // verus!
