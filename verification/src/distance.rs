//! Character-level Levenshtein edit distance, the duplicate-detection metric
//! of the clustering engine.
use crate::text::chars_vec;
use vstd::prelude::*;

verus! {

/// The smallest of three.
pub open spec fn min3(x: nat, y: nat, z: nat) -> nat {
    if x <= y && x <= z {
        x
    } else if y <= z {
        y
    } else {
        z
    }
}

/// Levenshtein distance over characters: the least number of one-character
/// insertions, deletions and substitutions that turns `a` into `b`.
pub open spec fn lev(a: Seq<char>, b: Seq<char>) -> nat
    decreases a.len() + b.len(),
{
    if a.len() == 0 {
        b.len()
    } else if b.len() == 0 {
        a.len()
    } else {
        min3(
            lev(a.drop_last(), b.drop_last()) + (if a.last() == b.last() {
                0nat
            } else {
                1nat
            }),
            lev(a.drop_last(), b) + 1,
            lev(a, b.drop_last()) + 1,
        )
    }
}

/// The distance never exceeds the longer input's length.
pub proof fn lemma_lev_le_max(a: Seq<char>, b: Seq<char>)
    ensures
        lev(a, b) <= a.len() || lev(a, b) <= b.len(),
    decreases a.len() + b.len(),
{
    if a.len() == 0 {
    } else if b.len() == 0 {
    } else {
        lemma_lev_le_max(a.drop_last(), b.drop_last());
    }
}

/// The distance from a text to itself is zero.
pub proof fn lemma_lev_self(a: Seq<char>)
    ensures
        lev(a, a) == 0,
    decreases a.len(),
{
    if a.len() > 0 {
        lemma_lev_self(a.drop_last());
    }
}

/// The distance from the empty text to `s` is the length of `s`, either way
/// around.
pub proof fn lemma_lev_empty(s: Seq<char>)
    ensures
        lev(Seq::<char>::empty(), s) == s.len(),
        lev(s, Seq::<char>::empty()) == s.len(),
{
}

/// The distance is symmetric.
pub proof fn lemma_lev_sym(a: Seq<char>, b: Seq<char>)
    ensures
        lev(a, b) == lev(b, a),
    decreases a.len() + b.len(),
{
    if a.len() == 0 || b.len() == 0 {
    } else {
        lemma_lev_sym(a.drop_last(), b.drop_last());
        lemma_lev_sym(a.drop_last(), b);
        lemma_lev_sym(a, b.drop_last());
    }
}

fn edit_distance_chars(a: &[char], b: &[char]) -> (d: usize)
    ensures
        d as nat == lev(a@, b@),
{
    let la = a.len();
    let lb = b.len();
    let mut prev: Vec<u128> = Vec::new();
    prev.push(0);
    let mut j: usize = 0;
    while j < lb
        invariant
            j <= lb,
            lb == b@.len(),
            prev@.len() == j + 1,
            forall|k: int| 0 <= k <= j ==> prev@[k] == lev(a@.take(0), b@.take(k)),
            forall|k: int| 0 <= k <= j ==> prev@[k] <= k,
        decreases lb - j,
    {
        prev.push((j as u128) + 1);
        proof {
            assert(a@.take(0) =~= Seq::<char>::empty());
            assert(b@.take(j + 1 as int).len() == j + 1);
        }
        j = j + 1;
    }
    proof {
        assert(a@.take(0) =~= Seq::<char>::empty());
    }
    let mut i: usize = 0;
    while i < la
        invariant
            i <= la,
            la == a@.len(),
            lb == b@.len(),
            prev@.len() == lb + 1,
            forall|k: int| 0 <= k <= lb ==> prev@[k] == lev(a@.take(i as int), b@.take(k)),
            forall|k: int| 0 <= k <= lb ==> prev@[k] <= i + k,
        decreases la - i,
    {
        let mut curr: Vec<u128> = Vec::new();
        curr.push((i as u128) + 1);
        proof {
            assert(a@.take(i + 1 as int).len() == i + 1);
            assert(b@.take(0) =~= Seq::<char>::empty());
        }
        let mut j: usize = 0;
        while j < lb
            invariant
                i < la,
                j <= lb,
                la == a@.len(),
                lb == b@.len(),
                prev@.len() == lb + 1,
                curr@.len() == j + 1,
                forall|k: int| 0 <= k <= lb ==> prev@[k] == lev(a@.take(i as int), b@.take(k)),
                forall|k: int| 0 <= k <= lb ==> prev@[k] <= i + k,
                forall|k: int| 0 <= k <= j ==> curr@[k] == lev(a@.take(i + 1 as int), b@.take(k)),
                forall|k: int| 0 <= k <= j ==> curr@[k] <= i + 1 + k,
            decreases lb - j,
        {
            let cost: u128 = if a[i] == b[j] {
                0
            } else {
                1
            };
            let x = prev[j] + cost;
            let y = prev[j + 1] + 1;
            let z = curr[j] + 1;
            let m = if x <= y && x <= z {
                x
            } else if y <= z {
                y
            } else {
                z
            };
            proof {
                let ai = a@.take(i + 1 as int);
                let bj = b@.take(j + 1 as int);
                assert(ai.drop_last() =~= a@.take(i as int));
                assert(bj.drop_last() =~= b@.take(j as int));
                assert(ai.last() == a@[i as int]);
                assert(bj.last() == b@[j as int]);
                assert(lev(ai, bj) == min3(
                    lev(a@.take(i as int), b@.take(j as int)) + (if a@[i as int] == b@[j as int] {
                        0nat
                    } else {
                        1nat
                    }),
                    lev(a@.take(i as int), b@.take(j + 1 as int)) + 1,
                    lev(a@.take(i + 1 as int), b@.take(j as int)) + 1,
                ));
            }
            curr.push(m);
            j = j + 1;
        }
        prev = curr;
        i = i + 1;
    }
    let d = prev[lb];
    proof {
        assert(a@.take(la as int) =~= a@);
        assert(b@.take(lb as int) =~= b@);
        lemma_lev_le_max(a@, b@);
    }
    d as usize
}

/// The character-level Levenshtein edit distance between two strings.
pub fn edit_distance(a: &str, b: &str) -> (d: usize)
    ensures
        d as nat == lev(a@, b@),
{
    let av = chars_vec(a);
    let bv = chars_vec(b);
    edit_distance_chars(av.as_slice(), bv.as_slice())
}

} // verus!
