use vstd::prelude::*;
use vstd::pervasive::VecAdditionalExecFns;

use crate::aggregate::ImportMap;
use crate::importfinder::{found_views, FoundImport, Position};
use crate::paths::{diff_paths, relative_path_from};
use crate::store::{opt_view, strings_view};

verus! {

/// A file where an import is used now, relative to the store's file, with
/// the position of the declaration.
pub struct Usage {
    pub path: String,
    pub position: Position,
}

impl View for Usage {
    type V = (Seq<char>, Position);

    open spec fn view(&self) -> (Seq<char>, Position) {
        (self.path@, self.position)
    }
}

pub open spec fn usage_views(v: Seq<Usage>) -> Seq<(Seq<char>, Position)> {
    v.map_values(|u: Usage| u@)
}

pub open spec fn usage_paths(cur: Seq<(Seq<char>, Position)>) -> Seq<Seq<char>> {
    cur.map_values(|u: (Seq<char>, Position)| u.0)
}

/// Where a reported difference must be mended.
pub enum ErrorLocation {
    /// The source uses a forbidden import that was not recorded.
    InElmSource { hint: Option<String> },
    /// A recorded usage is gone from the source.
    InConfig,
}

/// One difference between the recorded usages and the source.
pub struct CheckResult {
    pub path: String,
    pub position: Option<Position>,
    pub import: String,
    pub error_location: ErrorLocation,
}

impl View for CheckResult {
    /// Path, position, import, whether it lies in the config, hint.
    type V = (Seq<char>, Option<Position>, Seq<char>, bool, Option<Seq<char>>);

    open spec fn view(&self) -> (Seq<char>, Option<Position>, Seq<char>, bool, Option<Seq<char>>) {
        match self.error_location {
            ErrorLocation::InElmSource { hint } => (
                self.path@,
                self.position,
                self.import@,
                false,
                opt_view(hint),
            ),
            ErrorLocation::InConfig => (self.path@, self.position, self.import@, true, None),
        }
    }
}

impl CheckResult {
    pub fn error_is_in_config(&self) -> (r: bool)
        ensures
            r == self@.3,
    {
        match self.error_location {
            ErrorLocation::InConfig => true,
            ErrorLocation::InElmSource { .. } => false,
        }
    }
}

/// The exit status of a check: 0 when it found nothing, 1 otherwise.
pub fn exit_code(results: &Vec<CheckResult>) -> (r: i32)
    ensures
        r == (if results@.len() == 0 {
            0i32
        } else {
            1i32
        }),
{
    if results.len() == 0 {
        0
    } else {
        1
    }
}

/// Whether a check found something, and every finding is a usage that is
/// gone from the source.
pub fn all_in_config(results: &Vec<CheckResult>) -> (r: bool)
    ensures
        r == (results@.len() > 0 && forall|i: int| 0 <= i < results@.len() ==> (#[trigger] results@[i])@.3),
{
    if results.len() == 0 {
        return false;
    }
    let mut i: usize = 0;
    while i < results.len()
        invariant
            i <= results@.len(),
            forall|j: int| 0 <= j < i ==> (#[trigger] results@[j])@.3,
        decreases results@.len() - i,
    {
        if !results[i].error_is_in_config() {
            return false;
        }
        i = i + 1;
    }
    true
}

pub open spec fn check_views(v: Seq<CheckResult>) -> Seq<
    (Seq<char>, Option<Position>, Seq<char>, bool, Option<Seq<char>>),
> {
    v.map_values(|c: CheckResult| c@)
}

/// Index of the usage of file `p` in `c`, or -1.
pub open spec fn path_index(c: Seq<(Seq<char>, Position)>, p: Seq<char>) -> int
    decreases c.len(),
{
    if c.len() == 0 {
        -1
    } else if c.last().0 == p {
        c.len() - 1
    } else {
        path_index(c.drop_last(), p)
    }
}

proof fn lemma_path_index(c: Seq<(Seq<char>, Position)>, p: Seq<char>)
    ensures
        -1 <= path_index(c, p) < c.len(),
        path_index(c, p) >= 0 ==> c[path_index(c, p)].0 == p,
        path_index(c, p) == -1 <==> !usage_paths(c).contains(p),
    decreases c.len(),
{
    if c.len() > 0 {
        lemma_path_index(c.drop_last(), p);
        assert(usage_paths(c.drop_last()) =~= usage_paths(c).drop_last());
        if usage_paths(c).contains(p) && path_index(c, p) == -1 {
            let k = choose|k: int| 0 <= k < c.len() && usage_paths(c)[k] == p;
            assert(k < c.len() - 1);
            assert(usage_paths(c.drop_last())[k] == p);
        }
        if path_index(c, p) >= 0 {
            assert(usage_paths(c)[path_index(c, p)] == p);
        }
    }
}

/// The usages that a group of occurrences gives, seen from `parent`: one per
/// file, with the position of the last declaration met in it (the group is
/// in increasing order, so the greatest). Occurrences with no relative path
/// from `parent` are left out.
pub open spec fn current_usages(
    group: Seq<(Seq<char>, Seq<char>, Position)>,
    parent: Seq<char>,
) -> Seq<(Seq<char>, Position)>
    decreases group.len(),
{
    if group.len() == 0 {
        Seq::empty()
    } else {
        let c = current_usages(group.drop_last(), parent);
        let f = group.last();
        match relative_path_from(f.1, parent) {
            Some(p) => if path_index(c, p) >= 0 {
                c.update(path_index(c, p), (p, f.2))
            } else {
                c.push((p, f.2))
            },
            None => c,
        }
    }
}

/// Holds of a usage whose file is not among `recorded`.
pub open spec fn unrecorded(recorded: Seq<Seq<char>>) -> spec_fn((Seq<char>, Position)) -> bool {
    |u: (Seq<char>, Position)| !recorded.contains(u.0)
}

/// Holds of a recorded file that no current usage has.
pub open spec fn gone(current: Seq<(Seq<char>, Position)>) -> spec_fn(Seq<char>) -> bool {
    |p: Seq<char>| !usage_paths(current).contains(p)
}

pub open spec fn in_source_events(
    name: Seq<char>,
    hint: Option<Seq<char>>,
    recorded: Seq<Seq<char>>,
    current: Seq<(Seq<char>, Position)>,
) -> Seq<(Seq<char>, Option<Position>, Seq<char>, bool, Option<Seq<char>>)> {
    current.filter(unrecorded(recorded)).map_values(
        |u: (Seq<char>, Position)| (u.0, Some(u.1), name, false, hint),
    )
}

pub open spec fn in_config_events(
    name: Seq<char>,
    recorded: Seq<Seq<char>>,
    current: Seq<(Seq<char>, Position)>,
) -> Seq<(Seq<char>, Option<Position>, Seq<char>, bool, Option<Seq<char>>)> {
    recorded.filter(gone(current)).map_values(
        |p: Seq<char>| (p, None::<Position>, name, true, None::<Seq<char>>),
    )
}

/// The differences for one forbidden import: each current usage that was not
/// recorded, in the source; then each recorded usage that is gone, in the
/// config.
pub open spec fn diff_events(
    name: Seq<char>,
    hint: Option<Seq<char>>,
    recorded: Seq<Seq<char>>,
    current: Seq<(Seq<char>, Position)>,
) -> Seq<(Seq<char>, Option<Position>, Seq<char>, bool, Option<Seq<char>>)> {
    in_source_events(name, hint, recorded, current) + in_config_events(name, recorded, current)
}

pub open spec fn group_of(
    m: Map<Seq<char>, Seq<(Seq<char>, Seq<char>, Position)>>,
    name: Seq<char>,
) -> Seq<(Seq<char>, Seq<char>, Position)> {
    if m.contains_key(name) {
        m[name]
    } else {
        Seq::empty()
    }
}

/// Every difference between the recorded usages of each forbidden import and
/// the occurrences `m` of a scan, seen from `parent`, import by import.
pub open spec fn check_spec(
    fs: Seq<(Seq<char>, Option<Seq<char>>, Seq<Seq<char>>)>,
    m: Map<Seq<char>, Seq<(Seq<char>, Seq<char>, Position)>>,
    parent: Seq<char>,
) -> Seq<(Seq<char>, Option<Position>, Seq<char>, bool, Option<Seq<char>>)>
    decreases fs.len(),
{
    if fs.len() == 0 {
        Seq::empty()
    } else {
        let e = fs.last();
        check_spec(fs.drop_last(), m, parent) + diff_events(
            e.0,
            e.1,
            e.2,
            current_usages(group_of(m, e.0), parent),
        )
    }
}

/// Each forbidden import with its recorded usages replaced by the current ones.
pub open spec fn update_spec(
    fs: Seq<(Seq<char>, Option<Seq<char>>, Seq<Seq<char>>)>,
    m: Map<Seq<char>, Seq<(Seq<char>, Seq<char>, Position)>>,
    parent: Seq<char>,
) -> Seq<(Seq<char>, Option<Seq<char>>, Seq<Seq<char>>)> {
    fs.map_values(
        |e: (Seq<char>, Option<Seq<char>>, Seq<Seq<char>>)|
            (e.0, e.1, usage_paths(current_usages(group_of(m, e.0), parent))),
    )
}

/// A file is used at most once among the current usages.
pub proof fn lemma_current_usages_unique(
    group: Seq<(Seq<char>, Seq<char>, Position)>,
    parent: Seq<char>,
)
    ensures
        usage_paths(current_usages(group, parent)).no_duplicates(),
    decreases group.len(),
{
    if group.len() > 0 {
        lemma_current_usages_unique(group.drop_last(), parent);
        let c = current_usages(group.drop_last(), parent);
        let f = group.last();
        match relative_path_from(f.1, parent) {
            Some(p) => {
                lemma_path_index(c, p);
                if path_index(c, p) >= 0 {
                    assert(usage_paths(c.update(path_index(c, p), (p, f.2))) =~= usage_paths(c));
                } else {
                    let ps = usage_paths(c.push((p, f.2)));
                    assert(ps =~= usage_paths(c).push(p));
                    assert forall|a: int, b: int| 0 <= a < ps.len() && 0 <= b < ps.len() && a != b implies ps[a] != ps[b] by {
                        if a == c.len() {
                            assert(usage_paths(c)[b] == ps[b]);
                        } else if b == c.len() {
                            assert(usage_paths(c)[a] == ps[a]);
                        } else {
                            assert(usage_paths(c)[a] == ps[a]);
                            assert(usage_paths(c)[b] == ps[b]);
                        }
                    }
                }
            },
            None => {},
        }
    }
}

fn contains_string(v: &Vec<String>, s: &String) -> (r: bool)
    ensures
        r == strings_view(v@).contains(s@),
{
    let mut i: usize = 0;
    while i < v.len()
        invariant
            i <= v@.len(),
            forall|j: int| 0 <= j < i ==> strings_view(v@)[j] != s@,
        decreases v@.len() - i,
    {
        if v[i] == *s {
            assert(strings_view(v@)[i as int] == s@);
            return true;
        }
        i = i + 1;
    }
    false
}

fn find_usage_path(v: &Vec<Usage>, s: &String) -> (r: Option<usize>)
    ensures
        match r {
            Some(i) => i as int == path_index(usage_views(v@), s@),
            None => path_index(usage_views(v@), s@) == -1,
        },
{
    let ghost c = usage_views(v@);
    let mut i: usize = v.len();
    assert(c.subrange(0, i as int) =~= c);
    while i > 0
        invariant
            i <= v@.len(),
            c == usage_views(v@),
            path_index(c, s@) == path_index(c.subrange(0, i as int), s@),
        decreases i,
    {
        assert(c.subrange(0, i as int).drop_last() =~= c.subrange(0, i - 1));
        if v[i - 1].path == *s {
            return Some(i - 1);
        }
        i = i - 1;
    }
    None
}

fn contains_usage_path(v: &Vec<Usage>, s: &String) -> (r: bool)
    ensures
        r == usage_paths(usage_views(v@)).contains(s@),
{
    let mut i: usize = 0;
    while i < v.len()
        invariant
            i <= v@.len(),
            forall|j: int| 0 <= j < i ==> usage_paths(usage_views(v@))[j] != s@,
        decreases v@.len() - i,
    {
        if v[i].path == *s {
            assert(usage_paths(usage_views(v@))[i as int] == s@);
            return true;
        }
        i = i + 1;
    }
    false
}

fn clone_hint(h: &Option<String>) -> (r: Option<String>)
    ensures
        opt_view(r) == opt_view(*h),
{
    match h {
        Some(s) => Some(s.clone()),
        None => None,
    }
}

/// The usages that the occurrences of one import give, relative to the
/// store's directory `parent`.
pub fn current_usages_of(group: &Vec<FoundImport>, parent: &String) -> (r: Vec<Usage>)
    ensures
        usage_views(r@) == current_usages(found_views(group@), parent@),
{
    let ghost g = found_views(group@);
    let mut out: Vec<Usage> = Vec::new();
    let mut i: usize = 0;
    while i < group.len()
        invariant
            i <= group@.len(),
            g == found_views(group@),
            usage_views(out@) == current_usages(g.subrange(0, i as int), parent@),
        decreases group@.len() - i,
    {
        proof {
            assert(g.subrange(0, i + 1).drop_last() =~= g.subrange(0, i as int));
            assert(g.subrange(0, i + 1).last() == group@[i as int]@);
        }
        match diff_paths(group[i].path.as_str(), parent.as_str()) {
            Some(p) => {
                let ghost before = usage_views(out@);
                match find_usage_path(&out, &p) {
                    Some(k) => {
                        proof {
                            lemma_path_index(before, p@);
                        }
                        out.set(k, Usage { path: p, position: group[i].position });
                        proof {
                            assert(usage_views(out@) =~= before.update(k as int, (p@, group@[i as int].position)));
                        }
                    },
                    None => {
                        out.push(Usage { path: p, position: group[i].position });
                        proof {
                            assert(usage_views(out@) =~= before.push((p@, group@[i as int].position)));
                        }
                    },
                }
            },
            None => {},
        }
        i = i + 1;
    }
    proof {
        assert(g.subrange(0, group@.len() as int) =~= g);
    }
    out
}

/// The differences for one forbidden import between what was recorded and
/// what the source holds now.
pub fn diff_usages(
    name: &String,
    hint: &Option<String>,
    recorded: &Vec<String>,
    current: &Vec<Usage>,
) -> (r: Vec<CheckResult>)
    ensures
        check_views(r@) == diff_events(
            name@,
            opt_view(*hint),
            strings_view(recorded@),
            usage_views(current@),
        ),
{
    let ghost rec = strings_view(recorded@);
    let ghost cur = usage_views(current@);
    let ghost src_pred = unrecorded(rec);
    let ghost src_map = |u: (Seq<char>, Position)| (u.0, Some(u.1), name@, false, opt_view(*hint));
    let mut out: Vec<CheckResult> = Vec::new();
    let mut i: usize = 0;
    while i < current.len()
        invariant
            i <= current@.len(),
            rec == strings_view(recorded@),
            cur == usage_views(current@),
            src_pred == unrecorded(rec),
            src_map == (|u: (Seq<char>, Position)| (u.0, Some(u.1), name@, false, opt_view(*hint))),
            check_views(out@) == cur.subrange(0, i as int).filter(src_pred).map_values(src_map),
        decreases current@.len() - i,
    {
        let ghost pre = cur.subrange(0, i as int);
        proof {
            assert(cur.subrange(0, i + 1) =~= pre.push(cur[i as int]));
            pre.lemma_filter_push(cur[i as int], src_pred);
        }
        if !contains_string(recorded, &current[i].path) {
            let ghost before = check_views(out@);
            out.push(
                CheckResult {
                    path: current[i].path.clone(),
                    position: Some(current[i].position),
                    import: name.clone(),
                    error_location: ErrorLocation::InElmSource { hint: clone_hint(hint) },
                },
            );
            proof {
                assert(check_views(out@) =~= before.push(src_map(cur[i as int])));
                assert(pre.filter(src_pred).push(cur[i as int]).map_values(src_map) =~= pre.filter(
                    src_pred,
                ).map_values(src_map).push(src_map(cur[i as int])));
            }
        }
        i = i + 1;
    }
    proof {
        assert(cur.subrange(0, cur.len() as int) =~= cur);
    }
    let ghost cfg_pred = gone(cur);
    let ghost cfg_map = |p: Seq<char>| (p, None::<Position>, name@, true, None::<Seq<char>>);
    let ghost first = check_views(out@);
    let mut j: usize = 0;
    while j < recorded.len()
        invariant
            j <= recorded@.len(),
            rec == strings_view(recorded@),
            cur == usage_views(current@),
            cfg_pred == gone(cur),
            cfg_map == (|p: Seq<char>| (p, None::<Position>, name@, true, None::<Seq<char>>)),
            check_views(out@) == first + rec.subrange(0, j as int).filter(cfg_pred).map_values(cfg_map),
        decreases recorded@.len() - j,
    {
        let ghost pre = rec.subrange(0, j as int);
        proof {
            assert(rec.subrange(0, j + 1) =~= pre.push(rec[j as int]));
            pre.lemma_filter_push(rec[j as int], cfg_pred);
        }
        if !contains_usage_path(current, &recorded[j]) {
            let ghost before = check_views(out@);
            out.push(
                CheckResult {
                    path: recorded[j].clone(),
                    position: None,
                    import: name.clone(),
                    error_location: ErrorLocation::InConfig,
                },
            );
            proof {
                assert(check_views(out@) =~= before.push(cfg_map(rec[j as int])));
                assert(pre.filter(cfg_pred).push(rec[j as int]).map_values(cfg_map) =~= pre.filter(
                    cfg_pred,
                ).map_values(cfg_map).push(cfg_map(rec[j as int])));
            }
        }
        j = j + 1;
    }
    proof {
        assert(rec.subrange(0, rec.len() as int) =~= rec);
    }
    out
}

} // verus!
