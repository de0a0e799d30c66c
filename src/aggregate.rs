use vstd::prelude::*;

use crate::importfinder::{found_views, FoundImport, Position};
use crate::order::{
    found_less, found_lt, lemma_found_irreflexive, lemma_found_total, lemma_found_transitive,
    lemma_sorted_unique, sorted_found,
};

verus! {

/// Import names mapped to their occurrences, each name's occurrences in
/// increasing order and each once.
pub struct ImportMap {
    groups: Vec<(String, Vec<FoundImport>)>,
}

impl ImportMap {
    pub closed spec fn name_at(&self, i: int) -> Seq<char> {
        self.groups@[i].0@
    }

    pub closed spec fn found_at(&self, i: int) -> Seq<(Seq<char>, Seq<char>, Position)> {
        found_views(self.groups@[i].1@)
    }

    /// Names are unique; a group is not empty, its occurrences are of its
    /// name, and they increase.
    pub closed spec fn wf(&self) -> bool {
        &&& forall|i: int, j: int|
            0 <= i < self.groups@.len() && 0 <= j < self.groups@.len() && i != j ==> self.name_at(i)
                != self.name_at(j)
        &&& forall|i: int| 0 <= i < self.groups@.len() ==> self.group_ok(i)
    }

    pub closed spec fn group_ok(&self, i: int) -> bool {
        &&& self.found_at(i).len() > 0
        &&& sorted_found(self.found_at(i))
        &&& forall|k: int| 0 <= k < self.found_at(i).len() ==> (#[trigger] self.found_at(i)[k]).0 == self.name_at(i)
    }

    /// Every occurrence recorded, whatever its name.
    pub open spec fn records(&self) -> Set<(Seq<char>, Seq<char>, Position)> {
        Set::new(|r: (Seq<char>, Seq<char>, Position)| self@.contains_key(r.0) && self@[r.0].contains(r))
    }

    pub closed spec fn view(&self) -> Map<Seq<char>, Seq<(Seq<char>, Seq<char>, Position)>> {
        Map::new(
            |n: Seq<char>| exists|i: int| 0 <= i < self.groups@.len() && self.name_at(i) == n,
            |n: Seq<char>|
                {
                    let i = choose|i: int| 0 <= i < self.groups@.len() && self.name_at(i) == n;
                    self.found_at(i)
                },
        )
    }

    proof fn lemma_view_at(&self, i: int)
        requires
            self.wf(),
            0 <= i < self.groups@.len(),
        ensures
            self@.contains_key(self.name_at(i)),
            self@[self.name_at(i)] == self.found_at(i),
    {
        let n = self.name_at(i);
        assert(self@.dom().contains(n));
        let j = choose|j: int| 0 <= j < self.groups@.len() && self.name_at(j) == n;
        assert(j == i);
    }

    proof fn lemma_view_is(&self, m: Map<Seq<char>, Seq<(Seq<char>, Seq<char>, Position)>>)
        requires
            self.wf(),
            forall|a: int|
                0 <= a < self.groups@.len() ==> #[trigger] m.contains_key(self.name_at(a))
                    && m[self.name_at(a)] == self.found_at(a),
            forall|n: Seq<char>|
                #[trigger] m.contains_key(n) ==> exists|a: int|
                    0 <= a < self.groups@.len() && self.name_at(a) == n,
        ensures
            self@ == m,
    {
        assert forall|n: Seq<char>| self@.contains_key(n) implies m.contains_key(n) && self@[n]
            == m[n] by {
            let a = choose|a: int| 0 <= a < self.groups@.len() && self.name_at(a) == n;
            self.lemma_view_at(a);
        }
        assert(self@ =~= m);
    }

    pub fn new() -> (r: ImportMap)
        ensures
            r.wf(),
            r@ == Map::<Seq<char>, Seq<(Seq<char>, Seq<char>, Position)>>::empty(),
            r.records() == Set::<(Seq<char>, Seq<char>, Position)>::empty(),
    {
        let r = ImportMap { groups: Vec::new() };
        assert(r@ =~= Map::<Seq<char>, Seq<(Seq<char>, Seq<char>, Position)>>::empty());
        assert(r.records() =~= Set::<(Seq<char>, Seq<char>, Position)>::empty());
        r
    }

    /// Each name of a well-formed mapping has occurrences, all of that name,
    /// in increasing order (so each once).
    pub proof fn lemma_group(&self, n: Seq<char>)
        requires
            self.wf(),
            self@.contains_key(n),
        ensures
            self@[n].len() > 0,
            sorted_found(self@[n]),
            forall|k: int| 0 <= k < self@[n].len() ==> (#[trigger] self@[n][k]).0 == n,
    {
        let a = choose|a: int| 0 <= a < self.groups@.len() && self.name_at(a) == n;
        self.lemma_view_at(a);
        assert(self.group_ok(a));
    }

    fn find_group(&self, name: &String) -> (r: Option<usize>)
        ensures
            match r {
                Some(i) => i < self.groups@.len() && self.name_at(i as int) == name@,
                None => forall|i: int| 0 <= i < self.groups@.len() ==> self.name_at(i) != name@,
            },
    {
        let mut i: usize = 0;
        while i < self.groups.len()
            invariant
                i <= self.groups@.len(),
                forall|j: int| 0 <= j < i ==> self.name_at(j) != name@,
            decreases self.groups@.len() - i,
        {
            if self.groups[i].0 == *name {
                return Some(i);
            }
            i = i + 1;
        }
        None
    }

    /// The occurrences recorded for `name`, if it has any.
    pub fn get(&self, name: &String) -> (r: Option<&Vec<FoundImport>>)
        requires
            self.wf(),
        ensures
            match r {
                Some(v) => self@.contains_key(name@) && found_views(v@) == self@[name@]
                    && sorted_found(self@[name@]),
                None => !self@.contains_key(name@),
            },
    {
        proof {
            if self@.contains_key(name@) {
                self.lemma_group(name@);
            }
        }
        match self.find_group(name) {
            Some(i) => {
                proof {
                    self.lemma_view_at(i as int);
                }
                Some(&self.groups[i].1)
            },
            None => None,
        }
    }

    /// Adds one occurrence, in its place in the order; one already present
    /// is not added again.
    pub fn insert(&mut self, found: FoundImport)
        requires
            old(self).wf(),
        ensures
            final(self).wf(),
            final(self).records() == old(self).records().insert(found@),
    {
        let ghost f = found@;
        let ghost old_self = *self;
        let ghost old_map = self@;
        match self.find_group(&found.import) {
            Some(i) => {
                proof {
                    self.lemma_view_at(i as int);
                    assert(self.group_ok(i as int));
                }
                let ghost g0 = self.found_at(i as int);
                let len = self.groups[i].1.len();
                let mut k: usize = 0;
                while k < len && found_lt(&self.groups[i].1[k], &found)
                    invariant
                        *self == old_self,
                        i < self.groups@.len(),
                        g0 == self.found_at(i as int),
                        len == g0.len(),
                        k <= len,
                        f == found@,
                        forall|j: int| 0 <= j < k ==> found_less(#[trigger] g0[j], f),
                    decreases len - k,
                {
                    proof {
                        assert(g0[k as int] == self.groups@[i as int].1@[k as int]@);
                    }
                    k = k + 1;
                }
                if k < len && same_found(&self.groups[i].1[k], &found) {
                    proof {
                        assert(g0[k as int] == self.groups@[i as int].1@[k as int]@);
                        assert(old_map[f.0].contains(f));
                        assert(self.records() =~= old_self.records().insert(f));
                    }
                    return;
                }
                proof {
                    if k < len {
                        assert(g0[k as int] == self.groups@[i as int].1@[k as int]@);
                        assert(!found_less(g0[k as int], f));
                        assert(g0[k as int] != f);
                        lemma_found_total(g0[k as int], f);
                    }
                }
                let mut g = self.groups.remove(i);
                g.1.insert(k, found);
                self.groups.insert(i, g);
                proof {
                    let g1 = self.found_at(i as int);
                    assert(g1 =~= g0.insert(k as int, f));
                    assert forall|a: int| 0 <= a < self.groups@.len() && a != i implies self.name_at(a) == old_self.name_at(a) && self.found_at(a) == old_self.found_at(a) by {}
                    assert(sorted_found(g1)) by {
                        assert forall|a: int, b: int| 0 <= a < b < g1.len() implies found_less(#[trigger] g1[a], #[trigger] g1[b]) by {
                            if b < k {
                                assert(g1[a] == g0[a] && g1[b] == g0[b]);
                            } else if b == k {
                                assert(g1[a] == g0[a]);
                            } else if a < k {
                                assert(g1[a] == g0[a] && g1[b] == g0[b - 1]);
                                assert(found_less(g0[a], g0[b - 1]));
                            } else if a == k {
                                assert(g1[b] == g0[b - 1]);
                                if b - 1 > k {
                                    assert(found_less(g0[k as int], g0[b - 1]));
                                    lemma_found_transitive(f, g0[k as int], g0[b - 1]);
                                }
                            } else {
                                assert(g1[a] == g0[a - 1] && g1[b] == g0[b - 1]);
                            }
                        }
                    }
                    assert(self.group_ok(i as int));
                    assert forall|a: int| 0 <= a < self.groups@.len() implies self.group_ok(a) by {
                        if a != i {
                            assert(old_self.group_ok(a));
                        }
                    }
                    assert forall|x: int, y: int| 0 <= x < self.groups@.len() && 0 <= y < self.groups@.len() && x != y implies self.name_at(x) != self.name_at(y) by {
                        assert(old_self.name_at(x) != old_self.name_at(y));
                    }
                    assert(self.wf());
                    let target = old_map.insert(f.0, g1);
                    assert forall|a: int| 0 <= a < self.groups@.len() implies #[trigger] target.contains_key(self.name_at(a)) && target[self.name_at(a)] == self.found_at(a) by {
                        old_self.lemma_view_at(a);
                    }
                    assert forall|n: Seq<char>| #[trigger] target.contains_key(n) implies exists|a: int| 0 <= a < self.groups@.len() && self.name_at(a) == n by {
                        if n != f.0 {
                            let a = choose|a: int| 0 <= a < old_self.groups@.len() && old_self.name_at(a) == n;
                            assert(self.name_at(a) == n);
                        } else {
                            assert(self.name_at(i as int) == n);
                        }
                    }
                    self.lemma_view_is(target);
                    assert forall|r: (Seq<char>, Seq<char>, Position)| g1.contains(r) <==> (g0.contains(r) || r == f) by {
                        if g1.contains(r) {
                            let a = choose|a: int| 0 <= a < g1.len() && g1[a] == r;
                            if a < k {
                                assert(g0[a] == r);
                            } else if a > k {
                                assert(g0[a - 1] == r);
                            }
                        }
                        if g0.contains(r) {
                            let a = choose|a: int| 0 <= a < g0.len() && g0[a] == r;
                            if a < k {
                                assert(g1[a] == r);
                            } else {
                                assert(g1[a + 1] == r);
                            }
                        }
                        if r == f {
                            assert(g1[k as int] == r);
                        }
                    }
                    assert(self.records() =~= old_self.records().insert(f));
                }
            },
            None => {
                let name = found.import.clone();
                let mut v: Vec<FoundImport> = Vec::new();
                v.push(found);
                self.groups.push((name, v));
                proof {
                    let last = self.groups@.len() - 1;
                    assert(self.found_at(last) =~= seq![f]);
                    assert forall|a: int| 0 <= a < old_self.groups@.len() implies self.name_at(a) == old_self.name_at(a) && self.found_at(a) == old_self.found_at(a) by {}
                    assert forall|a: int| 0 <= a < self.groups@.len() implies self.group_ok(a) by {
                        if a < last {
                            assert(old_self.group_ok(a));
                        }
                    }
                    assert forall|x: int, y: int| 0 <= x < self.groups@.len() && 0 <= y < self.groups@.len() && x != y implies self.name_at(x) != self.name_at(y) by {
                        if x < last && y < last {
                            assert(old_self.name_at(x) != old_self.name_at(y));
                        } else if x == last {
                            assert(old_self.name_at(y) != f.0);
                        } else {
                            assert(old_self.name_at(x) != f.0);
                        }
                    }
                    assert(self.wf());
                    let target = old_map.insert(f.0, seq![f]);
                    assert forall|a: int| 0 <= a < self.groups@.len() implies #[trigger] target.contains_key(self.name_at(a)) && target[self.name_at(a)] == self.found_at(a) by {
                        if a < last {
                            old_self.lemma_view_at(a);
                        }
                    }
                    assert forall|n: Seq<char>| #[trigger] target.contains_key(n) implies exists|a: int| 0 <= a < self.groups@.len() && self.name_at(a) == n by {
                        if n != f.0 {
                            let a = choose|a: int| 0 <= a < old_self.groups@.len() && old_self.name_at(a) == n;
                            assert(self.name_at(a) == n);
                        } else {
                            assert(self.name_at(last) == n);
                        }
                    }
                    self.lemma_view_is(target);
                    assert(!old_map.contains_key(f.0)) by {
                        if old_map.contains_key(f.0) {
                            let a = choose|a: int| 0 <= a < old_self.groups@.len() && old_self.name_at(a) == f.0;
                        }
                    }
                    assert(seq![f].contains(f)) by {
                        assert(seq![f][0] == f);
                    }
                    assert(self.records() =~= old_self.records().insert(f));
                }
            },
        }
    }
}

/// Two mappings with the same occurrences are the same mapping: neither the
/// order in which a scan met them nor repeats show in the result, so a scan
/// of an unchanged tree gives the same mapping every time.
pub proof fn law_same_records_same_map(a: ImportMap, b: ImportMap)
    requires
        a.wf(),
        b.wf(),
        a.records() == b.records(),
    ensures
        a@ == b@,
{
    assert forall|n: Seq<char>| a@.contains_key(n) implies b@.contains_key(n) by {
        a.lemma_group(n);
        assert(a@[n].contains(a@[n][0]));
        assert(a.records().contains(a@[n][0]));
    }
    assert forall|n: Seq<char>| b@.contains_key(n) implies a@.contains_key(n) by {
        b.lemma_group(n);
        assert(b@[n].contains(b@[n][0]));
        assert(b.records().contains(b@[n][0]));
    }
    assert forall|n: Seq<char>| a@.contains_key(n) implies a@[n] == b@[n] by {
        a.lemma_group(n);
        b.lemma_group(n);
        assert forall|r: (Seq<char>, Seq<char>, Position)| a@[n].to_set().contains(r) implies b@[n].to_set().contains(r) by {
            let k = choose|k: int| 0 <= k < a@[n].len() && a@[n][k] == r;
            assert(a.records().contains(r));
        }
        assert forall|r: (Seq<char>, Seq<char>, Position)| b@[n].to_set().contains(r) implies a@[n].to_set().contains(r) by {
            let k = choose|k: int| 0 <= k < b@[n].len() && b@[n][k] == r;
            assert(b.records().contains(r));
        }
        assert(a@[n].to_set() =~= b@[n].to_set());
        lemma_sorted_unique(a@[n], b@[n]);
    }
    assert(a@ =~= b@);
}

fn same_found(a: &FoundImport, b: &FoundImport) -> (r: bool)
    ensures
        r == (a@ == b@),
{
    a.import == b.import && a.path == b.path && a.position == b.position
}

/// Folds the records of a scan into a mapping; its occurrences are the
/// records, whatever order they came in.
pub fn aggregate(records: Vec<FoundImport>) -> (r: ImportMap)
    ensures
        r.wf(),
        r.records() == found_views(records@).to_set(),
{
    let ghost rs = found_views(records@);
    let mut out = ImportMap::new();
    for f in it: records
        invariant
            it.seq() == records@,
            rs == found_views(records@),
            out.wf(),
            out.records() == rs.subrange(0, it.index() as int).to_set(),
    {
        proof {
            let k = it.index() as int;
            assert(k < records@.len());
            assert(f == records@[k]);
            assert(rs.subrange(0, k + 1) =~= rs.subrange(0, k) + seq![f@]);
            Seq::lemma_to_set_insert_commutes(rs.subrange(0, k), f@);
        }
        out.insert(f);
    }
    proof {
        assert(rs.subrange(0, rs.len() as int) =~= rs);
    }
    out
}

} // verus!
