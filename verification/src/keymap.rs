//! The key-remapping table: each duplicate entry's key maps to the canonical
//! key of its cluster. A small association list with a `Map` view.
use vstd::prelude::*;

verus! {

/// The map an entry list denotes: later entries win.
pub open spec fn assoc_map(es: Seq<(String, String)>) -> Map<Seq<char>, Seq<char>>
    decreases es.len(),
{
    if es.len() == 0 {
        Map::<Seq<char>, Seq<char>>::empty()
    } else {
        assoc_map(es.drop_last()).insert(es.last().0@, es.last().1@)
    }
}

pub proof fn lemma_assoc_found(es: Seq<(String, String)>, j: int)
    requires
        0 <= j < es.len(),
        forall|l: int| j < l < es.len() ==> (#[trigger] es[l]).0@ != es[j].0@,
    ensures
        assoc_map(es).contains_key(es[j].0@),
        assoc_map(es)[es[j].0@] == es[j].1@,
    decreases es.len(),
{
    if j == es.len() - 1 {
    } else {
        lemma_assoc_found(es.drop_last(), j);
        assert(es.drop_last()[j] == es[j]);
        assert(es.last().0@ != es[j].0@);
    }
}

pub proof fn lemma_assoc_absent(es: Seq<(String, String)>, key: Seq<char>)
    requires
        forall|l: int| 0 <= l < es.len() ==> (#[trigger] es[l]).0@ != key,
    ensures
        !assoc_map(es).contains_key(key),
    decreases es.len(),
{
    if es.len() > 0 {
        lemma_assoc_absent(es.drop_last(), key);
    }
}

/// The table that sends each duplicate key to its cluster's canonical key.
pub struct KeyMap {
    entries: Vec<(String, String)>,
}

impl View for KeyMap {
    type V = Map<Seq<char>, Seq<char>>;

    closed spec fn view(&self) -> Map<Seq<char>, Seq<char>> {
        assoc_map(self.entries@)
    }
}

impl KeyMap {
    /// An empty table.
    pub fn new() -> (r: KeyMap)
        ensures
            r@ == Map::<Seq<char>, Seq<char>>::empty(),
    {
        let r = KeyMap { entries: Vec::new() };
        proof {
            assert(r.entries@.len() == 0);
        }
        r
    }

    /// Adds or replaces the mapping for `k`.
    pub fn insert(&mut self, k: String, v: String)
        ensures
            final(self)@ == old(self)@.insert(k@, v@),
    {
        let ghost before = self.entries@;
        self.entries.push((k, v));
        proof {
            assert(self.entries@.drop_last() =~= before);
        }
    }

    /// The value `k` maps to, if any.
    pub fn lookup(&self, k: &String) -> (r: Option<String>)
        ensures
            match r {
                Some(v) => self@.contains_key(k@) && self@[k@] == v@,
                None => !self@.contains_key(k@),
            },
    {
        let n = self.entries.len();
        let mut i: usize = n;
        while i > 0
            invariant
                i <= n,
                n == self.entries@.len(),
                forall|l: int| i <= l < n ==> (#[trigger] self.entries@[l]).0@ != k@,
            decreases i,
        {
            i = i - 1;
            if self.entries[i].0 == *k {
                let v = self.entries[i].1.clone();
                proof {
                    lemma_assoc_found(self.entries@, i as int);
                }
                return Some(v);
            }
        }
        proof {
            lemma_assoc_absent(self.entries@, k@);
        }
        None
    }
}

/// Lexicographic order on texts, by character value.
pub open spec fn str_lt(a: Seq<char>, b: Seq<char>) -> bool
    decreases a.len(),
{
    if b.len() == 0 {
        false
    } else if a.len() == 0 {
        true
    } else if a[0] != b[0] {
        (a[0] as int) < (b[0] as int)
    } else {
        str_lt(a.skip(1), b.skip(1))
    }
}

/// At most one of `a < b`, `a == b`, `b < a` holds, and one does.
pub proof fn lemma_str_lt_trichotomy(a: Seq<char>, b: Seq<char>)
    ensures
        str_lt(a, b) || str_lt(b, a) || a == b,
        str_lt(a, b) ==> !str_lt(b, a) && a != b,
    decreases a.len(),
{
    if a.len() == 0 || b.len() == 0 {
        if a.len() == 0 && b.len() == 0 {
            assert(a =~= b);
        }
    } else if a[0] != b[0] {
    } else {
        lemma_str_lt_trichotomy(a.skip(1), b.skip(1));
        if a.skip(1) == b.skip(1) {
            assert forall|i: int| 1 <= i < a.len() implies a[i] == b[i] by {
                assert(a.skip(1)[i - 1] == b.skip(1)[i - 1]);
            }
            assert(a =~= b);
        }
    }
}

/// The order is transitive.
pub proof fn lemma_str_lt_trans(a: Seq<char>, b: Seq<char>, c: Seq<char>)
    requires
        str_lt(a, b),
        str_lt(b, c),
    ensures
        str_lt(a, c),
    decreases a.len(),
{
    if a.len() == 0 {
    } else if a[0] != b[0] {
    } else if b[0] != c[0] {
    } else {
        lemma_str_lt_trans(a.skip(1), b.skip(1), c.skip(1));
    }
}

/// Whether `a` comes strictly before `b` in lexicographic order.
pub fn str_lt_run(a: &[char], b: &[char]) -> (r: bool)
    ensures
        r == str_lt(a@, b@),
    decreases a@.len(),
{
    if b.len() == 0 {
        false
    } else if a.len() == 0 {
        true
    } else if a[0] != b[0] {
        a[0] < b[0]
    } else {
        let r = str_lt_run(
            vstd::slice::slice_subrange(a, 1, a.len()),
            vstd::slice::slice_subrange(b, 1, b.len()),
        );
        proof {
            assert(a@.subrange(1, a@.len() as int) =~= a@.skip(1));
            assert(b@.subrange(1, b@.len() as int) =~= b@.skip(1));
        }
        r
    }
}

} // verus!
