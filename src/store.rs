use vstd::prelude::*;

use crate::aggregate::ImportMap;
use crate::order::{lemma_text_irreflexive, lemma_text_total, lemma_text_transitive, text_less, text_lt};
use crate::paths::{diff_paths, parent_dir, parent_of, relative_path_from};
use crate::reconcile::{
    check_spec, check_views, current_usages, current_usages_of, diff_usages, group_of,
    lemma_current_usages_unique, update_spec, usage_paths, usage_views, CheckResult, Usage,
};

verus! {

/// An import that may not spread: the hint shown where it is used, and the
/// files (relative to the store's own file) where it was known to be used.
pub struct ForbiddenImport {
    pub name: String,
    pub hint: Option<String>,
    pub usages: Vec<String>,
}

pub open spec fn opt_view(o: Option<String>) -> Option<Seq<char>> {
    match o {
        Some(s) => Some(s@),
        None => None,
    }
}

pub open spec fn strings_view(v: Seq<String>) -> Seq<Seq<char>> {
    v.map_values(|s: String| s@)
}

impl View for ForbiddenImport {
    type V = (Seq<char>, Option<Seq<char>>, Seq<Seq<char>>);

    open spec fn view(&self) -> (Seq<char>, Option<Seq<char>>, Seq<Seq<char>>) {
        (self.name@, opt_view(self.hint), strings_view(self.usages@))
    }
}

pub open spec fn forbidden_view(v: Seq<ForbiddenImport>) -> Seq<
    (Seq<char>, Option<Seq<char>>, Seq<Seq<char>>),
> {
    v.map_values(|f: ForbiddenImport| f@)
}

/// Index of the entry named `name`, or -1.
pub open spec fn index_of_name(
    fs: Seq<(Seq<char>, Option<Seq<char>>, Seq<Seq<char>>)>,
    name: Seq<char>,
) -> int
    decreases fs.len(),
{
    if fs.len() == 0 {
        -1
    } else if fs.last().0 == name {
        fs.len() - 1
    } else {
        index_of_name(fs.drop_last(), name)
    }
}

proof fn lemma_index_of_name(fs: Seq<(Seq<char>, Option<Seq<char>>, Seq<Seq<char>>)>, name: Seq<char>)
    ensures
        -1 <= index_of_name(fs, name) < fs.len(),
        index_of_name(fs, name) >= 0 ==> fs[index_of_name(fs, name)].0 == name,
        index_of_name(fs, name) == -1 ==> forall|i: int| 0 <= i < fs.len() ==> fs[i].0 != name,
    decreases fs.len(),
{
    if fs.len() > 0 {
        lemma_index_of_name(fs.drop_last(), name);
        if index_of_name(fs, name) == -1 {
            assert forall|i: int| 0 <= i < fs.len() implies fs[i].0 != name by {
                if i < fs.len() - 1 {
                    assert(fs.drop_last()[i] == fs[i]);
                }
            }
        }
    }
}

/// Names increase (so none is there twice), and the usages of a name are
/// each there once.
pub open spec fn forbidden_wf(fs: Seq<(Seq<char>, Option<Seq<char>>, Seq<Seq<char>>)>) -> bool {
    &&& forall|i: int, j: int| 0 <= i < j < fs.len() ==> text_less(#[trigger] fs[i].0, #[trigger] fs[j].0)
    &&& forall|i: int| 0 <= i < fs.len() ==> (#[trigger] fs[i]).2.no_duplicates()
}

/// In increasing order, names are also unique.
pub proof fn lemma_names_unique(fs: Seq<(Seq<char>, Option<Seq<char>>, Seq<Seq<char>>)>)
    requires
        forbidden_wf(fs),
    ensures
        forall|i: int, j: int| 0 <= i < fs.len() && 0 <= j < fs.len() && i != j ==> fs[i].0 != fs[j].0,
{
    assert forall|i: int, j: int| 0 <= i < fs.len() && 0 <= j < fs.len() && i != j implies fs[i].0 != fs[j].0 by {
        lemma_text_irreflexive(fs[i].0);
    }
}

/// Index `k` is where `name` belongs among the names of `fs`.
pub open spec fn insert_point(
    fs: Seq<(Seq<char>, Option<Seq<char>>, Seq<Seq<char>>)>,
    name: Seq<char>,
    k: int,
) -> bool {
    &&& 0 <= k <= fs.len()
    &&& forall|j: int| 0 <= j < k ==> text_less(#[trigger] fs[j].0, name)
    &&& forall|j: int| k <= j < fs.len() ==> text_less(name, #[trigger] fs[j].0)
}

fn strings_unique(v: &Vec<String>) -> (r: bool)
    ensures
        r == strings_view(v@).no_duplicates(),
{
    let ghost sv = strings_view(v@);
    let mut i: usize = 0;
    while i < v.len()
        invariant
            i <= v@.len(),
            sv == strings_view(v@),
            forall|a: int, b: int| 0 <= a < i && 0 <= b < sv.len() && a != b ==> sv[a] != sv[b],
        decreases v@.len() - i,
    {
        let mut j: usize = 0;
        while j < v.len()
            invariant
                i < v@.len(),
                j <= v@.len(),
                sv == strings_view(v@),
                forall|b: int| 0 <= b < j && b != i ==> sv[i as int] != sv[b],
            decreases v@.len() - j,
        {
            if j != i && v[j] == v[i] {
                assert(sv[i as int] == sv[j as int]);
                return false;
            }
            j = j + 1;
        }
        i = i + 1;
    }
    true
}

/// Why a path cannot be stored relative to the store's file.
#[derive(Debug, Clone, Copy, PartialEq, Eq, Structural)]
pub enum PathError {
    /// The store's own path has no parent directory.
    NoParent,
    /// No relative path leads from the store's directory to the path.
    NoRelativePath,
}

/// `path` as seen from the directory of the store's file at `config`.
pub open spec fn relative_to_config(config: Seq<char>, path: Seq<char>) -> Result<
    Seq<char>,
    PathError,
> {
    match parent_of(config) {
        None => Err(PathError::NoParent),
        Some(parent) => match relative_path_from(path, parent) {
            None => Err(PathError::NoRelativePath),
            Some(rel) => Ok(rel),
        },
    }
}

/// `after` is `fs` with `name` forbidden: its hint replaced where it was
/// there, else a new entry without usages in its place in name order.
pub open spec fn forbid_spec(
    fs: Seq<(Seq<char>, Option<Seq<char>>, Seq<Seq<char>>)>,
    name: Seq<char>,
    hint: Option<Seq<char>>,
    after: Seq<(Seq<char>, Option<Seq<char>>, Seq<Seq<char>>)>,
) -> bool {
    let i = index_of_name(fs, name);
    if i >= 0 {
        after == fs.update(i, (name, hint, fs[i].2))
    } else {
        exists|k: int| insert_point(fs, name, k) && after == fs.insert(k, (name, hint, Seq::empty()))
    }
}

pub open spec fn unforbid_spec(
    fs: Seq<(Seq<char>, Option<Seq<char>>, Seq<Seq<char>>)>,
    name: Seq<char>,
) -> Seq<(Seq<char>, Option<Seq<char>>, Seq<Seq<char>>)> {
    let i = index_of_name(fs, name);
    if i >= 0 {
        fs.remove(i)
    } else {
        fs
    }
}

pub open spec fn add_root_spec(roots: Seq<Seq<char>>, root: Seq<char>) -> Seq<Seq<char>> {
    if roots.contains(root) {
        roots
    } else {
        roots.push(root)
    }
}

/// Holds of every path but `root`.
pub open spec fn other_than(root: Seq<char>) -> spec_fn(Seq<char>) -> bool {
    |r: Seq<char>| r != root
}

pub open spec fn remove_root_spec(roots: Seq<Seq<char>>, root: Seq<char>) -> Seq<Seq<char>> {
    roots.filter(other_than(root))
}

/// The persisted state: the store's own path, the project roots and the
/// forbidden imports, paths kept relative to the store's file.
pub struct Store {
    config_path: String,
    roots: Vec<String>,
    forbidden: Vec<ForbiddenImport>,
}

impl Store {
    pub closed spec fn config_view(&self) -> Seq<char> {
        self.config_path@
    }

    pub closed spec fn roots_view(&self) -> Seq<Seq<char>> {
        strings_view(self.roots@)
    }

    pub closed spec fn forbidden_spec(&self) -> Seq<(Seq<char>, Option<Seq<char>>, Seq<Seq<char>>)> {
        forbidden_view(self.forbidden@)
    }

    pub open spec fn wf(&self) -> bool {
        &&& self.roots_view().no_duplicates()
        &&& forbidden_wf(self.forbidden_spec())
    }

    /// An empty store kept at `config_path`.
    pub fn new(config_path: String) -> (r: Store)
        ensures
            r.wf(),
            r.config_view() == config_path@,
            r.roots_view() == Seq::<Seq<char>>::empty(),
            r.forbidden_spec() == Seq::<(Seq<char>, Option<Seq<char>>, Seq<Seq<char>>)>::empty(),
    {
        let r = Store { config_path, roots: Vec::new(), forbidden: Vec::new() };
        assert(r.roots_view() =~= Seq::<Seq<char>>::empty());
        assert(r.forbidden_spec() =~= Seq::<(Seq<char>, Option<Seq<char>>, Seq<Seq<char>>)>::empty());
        r
    }

    pub fn config_path(&self) -> (r: &String)
        ensures
            r@ == self.config_view(),
    {
        &self.config_path
    }

    pub fn roots(&self) -> (r: &Vec<String>)
        ensures
            strings_view(r@) == self.roots_view(),
    {
        &self.roots
    }

    pub fn forbidden(&self) -> (r: &Vec<ForbiddenImport>)
        ensures
            forbidden_view(r@) == self.forbidden_spec(),
    {
        &self.forbidden
    }

    /// Forbids `name`, or replaces the hint of a name already forbidden; the
    /// usages recorded for it stay.
    pub fn forbid(&mut self, name: String, hint: Option<String>)
        requires
            old(self).wf(),
        ensures
            final(self).wf(),
            final(self).config_view() == old(self).config_view(),
            final(self).roots_view() == old(self).roots_view(),
            forbid_spec(
                old(self).forbidden_spec(),
                name@,
                opt_view(hint),
                final(self).forbidden_spec(),
            ),
    {
        let ghost fs = self.forbidden_spec();
        let ghost nv = name@;
        let ghost hv = opt_view(hint);
        proof {
            lemma_index_of_name(fs, nv);
        }
        match self.find_forbidden(&name) {
            Some(i) => {
                let mut e = self.forbidden.remove(i);
                e.hint = hint;
                self.forbidden.insert(i, e);
                proof {
                    assert(self.forbidden_spec() =~= fs.update(i as int, (nv, hv, fs[i as int].2)));
                    assert forall|a: int, b: int| 0 <= a < b < fs.len() implies text_less(#[trigger] self.forbidden_spec()[a].0, #[trigger] self.forbidden_spec()[b].0) by {
                        assert(text_less(fs[a].0, fs[b].0));
                    }
                    assert forall|a: int| 0 <= a < fs.len() implies (#[trigger] self.forbidden_spec()[a]).2.no_duplicates() by {
                        assert(fs[a].2.no_duplicates());
                    }
                }
            },
            None => {
                let mut k: usize = 0;
                while k < self.forbidden.len() && text_lt(&self.forbidden[k].name, &name)
                    invariant
                        k <= self.forbidden@.len(),
                        fs == self.forbidden_spec(),
                        nv == name@,
                        forall|j: int| 0 <= j < k ==> text_less(#[trigger] fs[j].0, nv),
                    decreases self.forbidden@.len() - k,
                {
                    k = k + 1;
                }
                proof {
                    if k < fs.len() {
                        assert(fs[k as int].0 != nv);
                        lemma_text_total(fs[k as int].0, nv);
                        assert forall|j: int| k <= j < fs.len() implies text_less(nv, #[trigger] fs[j].0) by {
                            if j > k {
                                lemma_text_transitive(nv, fs[k as int].0, fs[j].0);
                            }
                        }
                    }
                    assert(insert_point(fs, nv, k as int));
                }
                self.forbidden.insert(k, ForbiddenImport { name, hint, usages: Vec::new() });
                proof {
                    let e = (nv, hv, Seq::<Seq<char>>::empty());
                    let g1 = self.forbidden_spec();
                    assert(strings_view(Seq::<String>::empty()) =~= Seq::<Seq<char>>::empty());
                    assert(g1 =~= fs.insert(k as int, e));
                    assert forall|a: int, b: int| 0 <= a < b < g1.len() implies text_less(#[trigger] g1[a].0, #[trigger] g1[b].0) by {
                        if b < k {
                            assert(g1[a] == fs[a] && g1[b] == fs[b]);
                        } else if b == k {
                            assert(g1[a] == fs[a]);
                        } else if a < k {
                            assert(g1[a] == fs[a] && g1[b] == fs[b - 1]);
                        } else if a == k {
                            assert(g1[b] == fs[b - 1]);
                        } else {
                            assert(g1[a] == fs[a - 1] && g1[b] == fs[b - 1]);
                        }
                    }
                    assert forall|a: int| 0 <= a < g1.len() implies (#[trigger] g1[a]).2.no_duplicates() by {
                        if a < k {
                            assert(g1[a] == fs[a]);
                        } else if a > k {
                            assert(g1[a] == fs[a - 1]);
                        }
                    }
                }
            },
        }
    }

    /// Stops forbidding `name`; a name that is not forbidden changes nothing.
    pub fn unforbid(&mut self, name: String)
        requires
            old(self).wf(),
        ensures
            final(self).wf(),
            final(self).config_view() == old(self).config_view(),
            final(self).roots_view() == old(self).roots_view(),
            final(self).forbidden_spec() == unforbid_spec(old(self).forbidden_spec(), name@),
    {
        let ghost fs = self.forbidden_spec();
        proof {
            lemma_index_of_name(fs, name@);
        }
        match self.find_forbidden(&name) {
            Some(i) => {
                let _ = self.forbidden.remove(i);
                proof {
                    assert(self.forbidden_spec() =~= fs.remove(i as int));
                    assert forall|a: int, b: int| 0 <= a < b < fs.len() - 1 implies text_less(#[trigger] self.forbidden_spec()[a].0, #[trigger] self.forbidden_spec()[b].0) by {
                        let a2 = if a < i { a } else { a + 1 };
                        let b2 = if b < i { b } else { b + 1 };
                        assert(text_less(fs[a2].0, fs[b2].0));
                    }
                    assert forall|a: int| 0 <= a < fs.len() - 1 implies (#[trigger] self.forbidden_spec()[a]).2.no_duplicates() by {
                        let a2 = if a < i { a } else { a + 1 };
                        assert(fs[a2].2.no_duplicates());
                    }
                }
            },
            None => {},
        }
    }

    /// `path` as seen from the directory of the store's file.
    pub fn relative_to_config_path(&self, path: &String) -> (r: Result<String, PathError>)
        ensures
            match r {
                Ok(rel) => relative_to_config(self.config_view(), path@) == Ok::<Seq<char>, PathError>(rel@),
                Err(e) => relative_to_config(self.config_view(), path@) == Err::<Seq<char>, PathError>(e),
            },
    {
        match parent_dir(self.config_path.as_str()) {
            None => Err(PathError::NoParent),
            Some(parent) => match diff_paths(path.as_str(), parent.as_str()) {
                None => Err(PathError::NoRelativePath),
                Some(rel) => Ok(rel),
            },
        }
    }

    fn contains_root(&self, root: &String) -> (r: bool)
        ensures
            r == self.roots_view().contains(root@),
    {
        let mut i: usize = 0;
        while i < self.roots.len()
            invariant
                i <= self.roots@.len(),
                forall|j: int| 0 <= j < i ==> self.roots_view()[j] != root@,
            decreases self.roots@.len() - i,
        {
            if self.roots[i] == *root {
                assert(self.roots_view()[i as int] == root@);
                return true;
            }
            i = i + 1;
        }
        false
    }

    /// Adds a project root, stored relative to the store's file; a root
    /// already there is not added twice.
    pub fn add_root(&mut self, path: String) -> (r: Result<(), PathError>)
        requires
            old(self).wf(),
        ensures
            final(self).wf(),
            final(self).config_view() == old(self).config_view(),
            final(self).forbidden_spec() == old(self).forbidden_spec(),
            match relative_to_config(old(self).config_view(), path@) {
                Ok(rel) => r is Ok && final(self).roots_view() == add_root_spec(old(self).roots_view(), rel),
                Err(e) => r == Err::<(), PathError>(e) && final(self).roots_view() == old(self).roots_view(),
            },
    {
        let rel = match self.relative_to_config_path(&path) {
            Ok(rel) => rel,
            Err(e) => {
                return Err(e);
            },
        };
        if !self.contains_root(&rel) {
            let ghost old_roots = self.roots_view();
            self.roots.push(rel);
            proof {
                assert(self.roots_view() =~= old_roots.push(rel@));
                assert forall|a: int, b: int| 0 <= a < self.roots_view().len() && 0 <= b < self.roots_view().len() && a != b implies self.roots_view()[a] != self.roots_view()[b] by {
                    if a == old_roots.len() {
                        assert(old_roots[b] != rel@);
                    } else if b == old_roots.len() {
                        assert(old_roots[a] != rel@);
                    }
                }
            }
        }
        Ok(())
    }

    /// Removes a project root, named as `add_root` was given it.
    pub fn remove_root(&mut self, path: String) -> (r: Result<(), PathError>)
        requires
            old(self).wf(),
        ensures
            final(self).wf(),
            final(self).config_view() == old(self).config_view(),
            final(self).forbidden_spec() == old(self).forbidden_spec(),
            match relative_to_config(old(self).config_view(), path@) {
                Ok(rel) => r is Ok && final(self).roots_view() == remove_root_spec(old(self).roots_view(), rel),
                Err(e) => r == Err::<(), PathError>(e) && final(self).roots_view() == old(self).roots_view(),
            },
    {
        let rel = match self.relative_to_config_path(&path) {
            Ok(rel) => rel,
            Err(e) => {
                return Err(e);
            },
        };
        let ghost old_roots = self.roots_view();
        let ghost pred = other_than(rel@);
        let mut kept: Vec<String> = Vec::new();
        let mut i: usize = 0;
        while i < self.roots.len()
            invariant
                i <= self.roots@.len(),
                old_roots == self.roots_view(),
                old_roots.no_duplicates(),
                pred == other_than(rel@),
                strings_view(kept@) == old_roots.subrange(0, i as int).filter(pred),
                strings_view(kept@).no_duplicates(),
                forall|x: Seq<char>| strings_view(kept@).contains(x) ==> old_roots.subrange(0, i as int).contains(x),
            decreases self.roots@.len() - i,
        {
            let ghost pre = old_roots.subrange(0, i as int);
            assert(old_roots.subrange(0, i + 1) =~= pre.push(old_roots[i as int]));
            proof {
                pre.lemma_filter_push(old_roots[i as int], pred);
            }
            if self.roots[i] != rel {
                let ghost before = strings_view(kept@);
                let r = self.roots[i].clone();
                kept.push(r);
                proof {
                    assert(strings_view(kept@) =~= before.push(old_roots[i as int]));
                    assert(!pre.contains(old_roots[i as int]));
                    assert forall|a: int, b: int| 0 <= a < before.len() + 1 && 0 <= b < before.len() + 1 && a != b implies strings_view(kept@)[a] != strings_view(kept@)[b] by {
                        if a == before.len() {
                            assert(before.contains(before[b]));
                        } else if b == before.len() {
                            assert(before.contains(before[a]));
                        }
                    }
                    assert forall|x: Seq<char>| strings_view(kept@).contains(x) implies old_roots.subrange(0, i + 1).contains(x) by {
                        if x != old_roots[i as int] {
                            assert(before.contains(x));
                            let j = choose|j: int| 0 <= j < pre.len() && pre[j] == x;
                            assert(old_roots.subrange(0, i + 1)[j] == x);
                        } else {
                            assert(old_roots.subrange(0, i + 1)[i as int] == x);
                        }
                    }
                }
            } else {
                proof {
                    assert forall|x: Seq<char>| strings_view(kept@).contains(x) implies old_roots.subrange(0, i + 1).contains(x) by {
                        let j = choose|j: int| 0 <= j < pre.len() && pre[j] == x;
                        assert(old_roots.subrange(0, i + 1)[j] == x);
                    }
                }
            }
            i = i + 1;
        }
        self.roots = kept;
        proof {
            assert(old_roots.subrange(0, old_roots.len() as int) =~= old_roots);
        }
        Ok(())
    }

    /// The current usages of `name` in the occurrences of a scan.
    fn usages_now(found: &ImportMap, name: &String, parent: &String) -> (r: Vec<Usage>)
        requires
            found.wf(),
        ensures
            usage_views(r@) == current_usages(group_of(found@, name@), parent@),
    {
        match found.get(name) {
            Some(group) => current_usages_of(group, parent),
            None => {
                let r: Vec<Usage> = Vec::new();
                assert(usage_views(r@) =~= current_usages(Seq::empty(), parent@));
                r
            },
        }
    }

    /// Compares the recorded usages of every forbidden import with the
    /// occurrences of a scan, whose paths are taken relative to `parent`, the
    /// directory of the store's file. Nothing is changed.
    pub fn check(&self, found: &ImportMap, parent: &String) -> (r: Vec<CheckResult>)
        requires
            self.wf(),
            found.wf(),
        ensures
            check_views(r@) == check_spec(self.forbidden_spec(), found@, parent@),
    {
        let ghost fs = self.forbidden_spec();
        let mut out: Vec<CheckResult> = Vec::new();
        let mut i: usize = 0;
        while i < self.forbidden.len()
            invariant
                i <= self.forbidden@.len(),
                fs == self.forbidden_spec(),
                found.wf(),
                check_views(out@) == check_spec(fs.subrange(0, i as int), found@, parent@),
            decreases self.forbidden@.len() - i,
        {
            let e = &self.forbidden[i];
            let cur = Self::usages_now(found, &e.name, parent);
            let mut events = diff_usages(&e.name, &e.hint, &e.usages, &cur);
            let ghost before = check_views(out@);
            let ghost added = check_views(events@);
            out.append(&mut events);
            proof {
                assert(fs.subrange(0, i + 1).drop_last() =~= fs.subrange(0, i as int));
                assert(fs.subrange(0, i + 1).last() == e@);
                assert(check_views(out@) =~= before + added);
            }
            i = i + 1;
        }
        proof {
            assert(fs.subrange(0, fs.len() as int) =~= fs);
        }
        out
    }

    /// Adopts the occurrences of a scan as the recorded usages of every
    /// forbidden import, paths taken relative to `parent`.
    pub fn update(&mut self, found: &ImportMap, parent: &String)
        requires
            old(self).wf(),
            found.wf(),
        ensures
            final(self).wf(),
            final(self).config_view() == old(self).config_view(),
            final(self).roots_view() == old(self).roots_view(),
            final(self).forbidden_spec() == update_spec(old(self).forbidden_spec(), found@, parent@),
    {
        let ghost fs = self.forbidden_spec();
        let ghost target = update_spec(fs, found@, parent@);
        let mut i: usize = 0;
        while i < self.forbidden.len()
            invariant
                i <= self.forbidden@.len(),
                self.forbidden@.len() == fs.len(),
                found.wf(),
                forbidden_wf(fs),
                target == update_spec(fs, found@, parent@),
                self.config_view() == old(self).config_view(),
                self.roots_view() == old(self).roots_view(),
                self.roots_view().no_duplicates(),
                forall|a: int| 0 <= a < i ==> self.forbidden_spec()[a] == target[a],
                forall|a: int| i <= a < fs.len() ==> self.forbidden_spec()[a] == fs[a],
            decreases self.forbidden@.len() - i,
        {
            let cur = Self::usages_now(found, &self.forbidden[i].name, parent);
            let mut usages: Vec<String> = Vec::new();
            let mut k: usize = 0;
            while k < cur.len()
                invariant
                    k <= cur@.len(),
                    strings_view(usages@) == usage_paths(usage_views(cur@)).subrange(0, k as int),
                decreases cur@.len() - k,
            {
                let ghost before = strings_view(usages@);
                usages.push(cur[k].path.clone());
                proof {
                    assert(usage_paths(usage_views(cur@))[k as int] == cur@[k as int].path@);
                    assert(strings_view(usages@) =~= before.push(cur@[k as int].path@));
                    assert(strings_view(usages@) =~= usage_paths(usage_views(cur@)).subrange(0, k + 1));
                }
                k = k + 1;
            }
            proof {
                assert(usage_paths(usage_views(cur@)).subrange(0, cur@.len() as int) =~= usage_paths(usage_views(cur@)));
            }
            let ghost old_forbidden = self.forbidden_spec();
            let mut e = self.forbidden.remove(i);
            e.usages = usages;
            self.forbidden.insert(i, e);
            proof {
                assert(self.forbidden_spec() =~= old_forbidden.update(i as int, target[i as int]));
            }
            i = i + 1;
        }
        proof {
            assert(self.forbidden_spec() =~= target);
            assert forall|a: int, b: int| 0 <= a < b < target.len() implies text_less(#[trigger] target[a].0, #[trigger] target[b].0) by {
                assert(text_less(fs[a].0, fs[b].0));
            }
            assert forall|a: int| 0 <= a < target.len() implies (#[trigger] target[a]).2.no_duplicates() by {
                lemma_current_usages_unique(group_of(found@, fs[a].0), parent@);
            }
        }
    }

    /// A store made of the parts read back from its file; none where the
    /// parts repeat a root or a usage of one name, or where the names do not
    /// increase.
    pub fn from_parts(config_path: String, roots: Vec<String>, forbidden: Vec<ForbiddenImport>) -> (r:
        Option<Store>)
        ensures
            r is Some <==> strings_view(roots@).no_duplicates() && forbidden_wf(
                forbidden_view(forbidden@),
            ),
            r matches Some(s) ==> s.wf() && s.config_view() == config_path@ && s.roots_view()
                == strings_view(roots@) && s.forbidden_spec() == forbidden_view(forbidden@),
    {
        if !strings_unique(&roots) {
            return None;
        }
        let ghost fs = forbidden_view(forbidden@);
        let mut i: usize = 0;
        while i < forbidden.len()
            invariant
                i <= forbidden@.len(),
                fs == forbidden_view(forbidden@),
                forall|a: int, b: int| 0 <= a < b < i ==> text_less(#[trigger] fs[a].0, #[trigger] fs[b].0),
                forall|a: int| 0 <= a < i ==> (#[trigger] fs[a]).2.no_duplicates(),
            decreases forbidden@.len() - i,
        {
            if !strings_unique(&forbidden[i].usages) {
                assert(!fs[i as int].2.no_duplicates());
                return None;
            }
            if i > 0 {
                if !text_lt(&forbidden[i - 1].name, &forbidden[i].name) {
                    assert(!text_less(fs[i - 1].0, fs[i as int].0));
                    return None;
                }
                proof {
                    assert forall|a: int, b: int| 0 <= a < b < i + 1 implies text_less(#[trigger] fs[a].0, #[trigger] fs[b].0) by {
                        if b == i && a < i - 1 {
                            lemma_text_transitive(fs[a].0, fs[i - 1].0, fs[b].0);
                        }
                    }
                }
            }
            i = i + 1;
        }
        let store = Store { config_path, roots, forbidden };
        Some(store)
    }

    /// The parts that the store's file holds: its path, roots and forbidden
    /// imports.
    pub fn into_parts(self) -> (r: (String, Vec<String>, Vec<ForbiddenImport>))
        ensures
            r.0@ == self.config_view(),
            strings_view(r.1@) == self.roots_view(),
            forbidden_view(r.2@) == self.forbidden_spec(),
    {
        (self.config_path, self.roots, self.forbidden)
    }

    fn find_forbidden(&self, name: &String) -> (r: Option<usize>)
        requires
            self.wf(),
        ensures
            match r {
                Some(i) => i < self.forbidden@.len() && i == index_of_name(self.forbidden_spec(), name@),
                None => index_of_name(self.forbidden_spec(), name@) == -1,
            },
    {
        let mut i: usize = self.forbidden.len();
        assert(self.forbidden_spec().subrange(0, i as int) =~= self.forbidden_spec());
        while i > 0
            invariant
                i <= self.forbidden@.len(),
                index_of_name(self.forbidden_spec(), name@) == index_of_name(self.forbidden_spec().subrange(0, i as int), name@),
            decreases i,
        {
            let ghost pre = self.forbidden_spec().subrange(0, i as int);
            assert(pre.drop_last() =~= self.forbidden_spec().subrange(0, i - 1));
            if self.forbidden[i - 1].name == *name {
                return Some(i - 1);
            }
            i = i - 1;
        }
        None
    }
}

} // verus!
