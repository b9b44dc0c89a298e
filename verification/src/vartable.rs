//! The variable table: which node currently defines each variable.

use vstd::prelude::*;

verus! {

/// Index of the last entry of `es` whose key equals `k`, searching
/// `[0, hi)`.
pub open spec fn find_key(es: Seq<(Vec<u8>, usize)>, k: Seq<u8>, hi: int) -> Option<int>
    decreases hi,
{
    if hi <= 0 {
        None
    } else if es[hi - 1].0@ == k {
        Some(hi - 1)
    } else {
        find_key(es, k, hi - 1)
    }
}

/// The mapping described by an entry list.
pub open spec fn table_map(es: Seq<(Vec<u8>, usize)>) -> Map<Seq<u8>, int> {
    Map::new(
        |k: Seq<u8>| find_key(es, k, es.len() as int) is Some,
        |k: Seq<u8>|
            match find_key(es, k, es.len() as int) {
                Some(i) => es[i].1 as int,
                None => 0,
            },
    )
}

/// A found key lies in range and matches; nothing later matches.
pub proof fn lemma_find_key(es: Seq<(Vec<u8>, usize)>, k: Seq<u8>, hi: int)
    requires
        hi <= es.len(),
    ensures
        match find_key(es, k, hi) {
            Some(i) => 0 <= i < hi && es[i].0@ == k && forall|j: int|
                i < j < hi ==> (#[trigger] es[j]).0@ != k,
            None => forall|j: int| 0 <= j < hi ==> (#[trigger] es[j]).0@ != k,
        },
    decreases hi,
{
    if hi > 0 && es[hi - 1].0@ != k {
        lemma_find_key(es, k, hi - 1);
    }
}

/// Mapping from a variable name to the node that defines it.
///
/// A name is recorded at most once: a second definition of the same
/// variable is a fatal ingestion error and is rejected before any
/// insertion.
pub struct VarTable {
    entries: Vec<(Vec<u8>, usize)>,
}

impl View for VarTable {
    type V = Map<Seq<u8>, int>;

    closed spec fn view(&self) -> Map<Seq<u8>, int> {
        table_map(self.entries@)
    }
}

impl VarTable {
    /// Keys are pairwise distinct.
    pub closed spec fn wf(&self) -> bool {
        forall|i: int, j: int|
            0 <= i < j < self.entries@.len() ==> (#[trigger] self.entries@[i]).0@ != (
            #[trigger] self.entries@[j]).0@
    }

    /// Every recorded node index is below `bound`.
    pub open spec fn values_below(&self, bound: int) -> bool {
        forall|k: Seq<u8>| self@.contains_key(k) ==> 0 <= #[trigger] self@[k] < bound
    }

    /// An empty table.
    pub fn new() -> (r: VarTable)
        ensures
            r@ == Map::<Seq<u8>, int>::empty(),
            r.wf(),
    {
        let r = VarTable { entries: Vec::new() };
        proof {
            assert(r@ =~= Map::<Seq<u8>, int>::empty());
        }
        r
    }

    /// Look the variable `name` up.
    pub fn get(&self, name: &[u8]) -> (r: Option<usize>)
        requires
            self.wf(),
        ensures
            match r {
                Some(i) => self@.contains_key(name@) && self@[name@] == i as int,
                None => !self@.contains_key(name@),
            },
    {
        let n = self.entries.len();
        let mut i: usize = 0;
        while i < n
            invariant
                self.wf(),
                n == self.entries@.len(),
                0 <= i <= n,
                forall|j: int| 0 <= j < i ==> (#[trigger] self.entries@[j]).0@ != name@,
            decreases n - i,
        {
            let e = &self.entries[i];
            if crate::bytes::bytes_eq(e.0.as_slice(), name) {
                proof {
                    lemma_find_key(self.entries@, name@, self.entries@.len() as int);
                }
                return Some(e.1);
            }
            i += 1;
        }
        proof {
            lemma_find_key(self.entries@, name@, self.entries@.len() as int);
        }
        None
    }

    /// Record that `name` is defined by node `idx`.
    pub fn insert(&mut self, name: Vec<u8>, idx: usize)
        requires
            old(self).wf(),
            !old(self)@.contains_key(name@),
        ensures
            final(self).wf(),
            final(self)@ == old(self)@.insert(name@, idx as int),
    {
        let ghost old_es = self.entries@;
        proof {
            lemma_find_key(old_es, name@, old_es.len() as int);
        }
        self.entries.push((name, idx));
        proof {
            broadcast use vstd::set::group_set_axioms;

            let es = self.entries@;
            let k0 = es[es.len() - 1].0@;
            let m1 = table_map(es);
            let m2 = table_map(old_es).insert(k0, idx as int);
            assert forall|k: Seq<u8>|
                #![trigger m1.dom().contains(k)]
                #![trigger m2.dom().contains(k)]
                m1.dom().contains(k) == m2.dom().contains(k) && (m1.dom().contains(k) ==> m1[k]
                    == m2[k]) by {
                if k == k0 {
                    assert(find_key(es, k, es.len() as int) == Some(es.len() - 1));
                    assert(m1.contains_key(k) && m1[k] == idx as int);
                    assert(m2.contains_key(k) && m2[k] == idx as int);
                } else {
                    lemma_find_key(old_es, k, old_es.len() as int);
                    lemma_find_key_prefix(old_es, es, k, old_es.len() as int);
                    assert(find_key(es, k, es.len() as int) == find_key(es, k, es.len() - 1));
                    assert(m1.contains_key(k) == table_map(old_es).contains_key(k));
                    assert(m2.contains_key(k) == table_map(old_es).contains_key(k));
                    assert(m1.contains_key(k) ==> m1[k] == table_map(old_es)[k]);
                    assert(m2.contains_key(k) ==> m2[k] == table_map(old_es)[k]);
                }
            }
            assert(m1.dom() =~= m2.dom());
            assert(m1 =~= m2);
            assert(self@ =~= old(self)@.insert(k0, idx as int));
        }
    }
}

/// `find_key` only reads entries below `hi`.
proof fn lemma_find_key_prefix(
    es1: Seq<(Vec<u8>, usize)>,
    es2: Seq<(Vec<u8>, usize)>,
    k: Seq<u8>,
    hi: int,
)
    requires
        0 <= hi <= es1.len(),
        hi <= es2.len(),
        forall|j: int| 0 <= j < hi ==> es1[j] == es2[j],
    ensures
        find_key(es1, k, hi) == find_key(es2, k, hi),
    decreases hi,
{
    if hi > 0 {
        lemma_find_key_prefix(es1, es2, k, hi - 1);
    }
}

} // verus!
