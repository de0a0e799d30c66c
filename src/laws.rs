//! Properties that hold across the operations of the library.
use vstd::prelude::*;

use crate::importfinder::{
    extract_spec, import_decl, import_keyword, indent_run, is_name_char, is_upper, lines_of, name_run,
    scan_lines, space_run, Position,
};
use crate::reconcile::{
    check_spec, current_usages, diff_events, gone, group_of, in_config_events, in_source_events,
    lemma_current_usages_unique, unrecorded, update_spec, usage_paths,
};
use crate::order::text_less;
use crate::store::{add_root_spec, forbidden_wf, other_than, relative_to_config, remove_root_spec};

verus! {

broadcast use vstd::seq_lib::group_filter_ensures;

proof fn lemma_scan_without_imports(lines: Seq<Seq<char>>, row: nat)
    requires
        forall|i: int| 0 <= i < lines.len() ==> import_decl(#[trigger] lines[i]) is None,
    ensures
        scan_lines(lines, row) == Seq::<(Seq<char>, Position)>::empty(),
    decreases lines.len(),
{
    if lines.len() > 0 {
        assert(import_decl(lines[0]) is None);
        let rest = lines.drop_first();
        assert forall|i: int| 0 <= i < rest.len() implies import_decl(#[trigger] rest[i]) is None by {
            assert(rest[i] == lines[i + 1]);
        }
        lemma_scan_without_imports(rest, row + 1);
    }
}

/// A text none of whose lines declares an import yields no declaration.
pub proof fn law_no_declaration_no_import(text: Seq<char>)
    requires
        forall|i: int| 0 <= i < lines_of(text).len() ==> import_decl(#[trigger] lines_of(text)[i]) is None,
    ensures
        extract_spec(text) == Seq::<(Seq<char>, Position)>::empty(),
{
    lemma_scan_without_imports(lines_of(text), 0);
}

/// The record that line number `row` gives when it declares an import.
pub open spec fn decl_record(line: Seq<char>, row: int) -> (Seq<char>, Position) {
    match import_decl(line) {
        Some((col, name)) => (name, Position { row: row as usize, column: col as usize }),
        None => (Seq::empty(), Position { row: row as usize, column: 0 }),
    }
}

proof fn lemma_scan_finds(lines: Seq<Seq<char>>, row: nat, i: int)
    requires
        0 <= i < lines.len(),
        import_decl(lines[i]) is Some,
    ensures
        scan_lines(lines, row).contains(decl_record(lines[i], row + i + 1)),
    decreases lines.len(),
{
    let s = scan_lines(lines, row);
    let rest = lines.drop_first();
    if i == 0 {
        assert(s[0] == decl_record(lines[0], row + 1 as int));
    } else {
        assert(rest[i - 1] == lines[i]);
        lemma_scan_finds(rest, row + 1, i - 1);
        let t = scan_lines(rest, row + 1);
        let e = decl_record(lines[i], row + i + 1);
        let k = choose|k: int| 0 <= k < t.len() && t[k] == e;
        match import_decl(lines[0]) {
            Some(d) => {
                assert(s[k + 1] == e);
            },
            None => {
                assert(s[k] == e);
            },
        }
    }
}

/// Every line that declares an import is reported, with its line number and
/// the column of the name, wherever it stands in the file: blank lines,
/// comments or other lines before it do not hide it.
pub proof fn law_every_declaration_found(text: Seq<char>, i: int)
    requires
        0 <= i < lines_of(text).len(),
        import_decl(lines_of(text)[i]) is Some,
    ensures
        extract_spec(text).contains(decl_record(lines_of(text)[i], i + 1)),
{
    lemma_scan_finds(lines_of(text), 0, i);
}

proof fn lemma_space_run(line: Seq<char>, i: int, k: nat)
    requires
        0 <= i,
        i + k <= line.len(),
        forall|j: int| i <= j < i + k ==> line[j] == ' ',
        i + k == line.len() || line[i + k] != ' ',
    ensures
        space_run(line, i) == k,
    decreases k,
{
    if k > 0 {
        lemma_space_run(line, i + 1, (k - 1) as nat);
    }
}

proof fn lemma_name_run(line: Seq<char>, i: int, k: nat)
    requires
        0 <= i,
        i + k <= line.len(),
        forall|j: int| i <= j < i + k ==> is_name_char(line[j]),
        i + k == line.len() || !is_name_char(line[i + k]),
    ensures
        name_run(line, i) == k,
    decreases k,
{
    if k > 0 {
        lemma_name_run(line, i + 1, (k - 1) as nat);
    }
}

/// A line `import`, spaces, a capitalised qualified name, then anything that
/// does not continue the name (with no indentation), declares exactly that name, at the column
/// where the name starts; as the first line of a text it is the first
/// declaration found, on line 1.
pub proof fn law_import_line(
    text: Seq<char>,
    spaces: nat,
    name: Seq<char>,
    rest: Seq<char>,
)
    requires
        lines_of(text).len() > 0,
        lines_of(text)[0] == import_keyword() + Seq::new(spaces, |i: int| ' ') + name + rest,
        spaces >= 1,
        name.len() >= 1,
        is_upper(name[0]),
        forall|i: int| 0 <= i < name.len() ==> is_name_char(#[trigger] name[i]),
        rest.len() == 0 || !is_name_char(rest[0]),
    ensures
        import_decl(lines_of(text)[0]) == Some((6 + spaces as int, name)),
        extract_spec(text).len() > 0,
        extract_spec(text)[0] == (name, Position { row: 1, column: (6 + spaces) as usize }),
{
    let line = lines_of(text)[0];
    let col: int = 6 + spaces as int;
    assert(line[0] == 'i');
    assert(indent_run(line, 0) == 0);
    assert(line.subrange(0, 6) =~= import_keyword());
    assert forall|j: int| 6 <= j < col implies line[j] == ' ' by {
        assert(line[j] == Seq::new(spaces, |i: int| ' ')[j - 6]);
    }
    assert(line[col] == name[0]);
    lemma_space_run(line, 6, spaces);
    assert forall|j: int| col + 1 <= j < col + name.len() implies is_name_char(line[j]) by {
        assert(line[j] == name[j - col]);
    }
    if rest.len() > 0 {
        assert(line[col + name.len()] == rest[0]);
    }
    lemma_name_run(line, col + 1, (name.len() - 1) as nat);
    assert(line.subrange(col, col + name.len()) =~= name);
}

proof fn lemma_filter_none<A>(s: Seq<A>, p: spec_fn(A) -> bool)
    requires
        forall|i: int| 0 <= i < s.len() ==> !p(#[trigger] s[i]),
    ensures
        s.filter(p) == Seq::<A>::empty(),
    decreases s.len(),
{
    if s.len() > 0 {
        let pre = s.drop_last();
        assert forall|i: int| 0 <= i < pre.len() implies !p(#[trigger] pre[i]) by {
            assert(pre[i] == s[i]);
        }
        lemma_filter_none(pre, p);
        assert(pre.push(s.last()) =~= s);
        pre.lemma_filter_push(s.last(), p);
    }
}

proof fn lemma_filter_all<A>(s: Seq<A>, p: spec_fn(A) -> bool)
    requires
        forall|i: int| 0 <= i < s.len() ==> p(#[trigger] s[i]),
    ensures
        s.filter(p) == s,
    decreases s.len(),
{
    if s.len() > 0 {
        let pre = s.drop_last();
        assert forall|i: int| 0 <= i < pre.len() implies p(#[trigger] pre[i]) by {
            assert(pre[i] == s[i]);
        }
        lemma_filter_all(pre, p);
        assert(pre.push(s.last()) =~= s);
        pre.lemma_filter_push(s.last(), p);
    }
}

/// Keeping the usages of unrecorded files and then taking their paths is
/// taking the paths and then keeping the unrecorded ones.
proof fn lemma_paths_of_unrecorded(s: Seq<(Seq<char>, Position)>, recorded: Seq<Seq<char>>)
    ensures
        usage_paths(s.filter(unrecorded(recorded))) == usage_paths(s).filter(
            |p: Seq<char>| !recorded.contains(p),
        ),
    decreases s.len(),
{
    let q = |p: Seq<char>| !recorded.contains(p);
    if s.len() == 0 {
        assert(usage_paths(s).filter(q) =~= Seq::<Seq<char>>::empty()) by {
            lemma_filter_none(usage_paths(s), q);
        }
        assert(s.filter(unrecorded(recorded)) =~= Seq::<(Seq<char>, Position)>::empty()) by {
            lemma_filter_none(s, unrecorded(recorded));
        }
    } else {
        let pre = s.drop_last();
        lemma_paths_of_unrecorded(pre, recorded);
        assert(pre.push(s.last()) =~= s);
        pre.lemma_filter_push(s.last(), unrecorded(recorded));
        assert(usage_paths(pre).push(s.last().0) =~= usage_paths(s));
        usage_paths(pre).lemma_filter_push(s.last().0, q);
        assert(usage_paths(pre.filter(unrecorded(recorded)).push(s.last())) =~= usage_paths(
            pre.filter(unrecorded(recorded)),
        ).push(s.last().0));
    }
}

/// Keeping the items of a sequence without repeats that are not in `x`
/// leaves no repeats, and leaves the set difference.
proof fn lemma_filter_difference(s: Seq<Seq<char>>, x: Seq<Seq<char>>, p: spec_fn(Seq<char>) -> bool)
    requires
        s.no_duplicates(),
        forall|e: Seq<char>| #[trigger] p(e) == !x.contains(e),
    ensures
        s.filter(p).no_duplicates(),
        s.filter(p).to_set() == s.to_set().difference(x.to_set()),
    decreases s.len(),
{
    if s.len() == 0 {
        lemma_filter_none(s, p);
        assert(s.filter(p).to_set() =~= s.to_set().difference(x.to_set()));
    } else {
        let pre = s.drop_last();
        let e = s.last();
        assert(pre.no_duplicates()) by {
            assert forall|a: int, b: int| 0 <= a < pre.len() && 0 <= b < pre.len() && a != b implies pre[a] != pre[b] by {
                assert(pre[a] == s[a] && pre[b] == s[b]);
            }
        }
        lemma_filter_difference(pre, x, p);
        assert(pre.push(e) =~= s);
        pre.lemma_filter_push(e, p);
        assert(!pre.contains(e)) by {
            if pre.contains(e) {
                let i = choose|i: int| 0 <= i < pre.len() && pre[i] == e;
                assert(s[i] == s[s.len() - 1]);
            }
        }
        Seq::lemma_to_set_insert_commutes(pre, e);
        assert(pre + seq![e] =~= s);
        if p(e) {
            let f = pre.filter(p);
            assert(!f.contains(e)) by {
                if f.contains(e) {
                    let i = choose|i: int| 0 <= i < f.len() && f[i] == e;
                    assert(f.to_set().contains(e));
                }
            }
            assert(f.push(e).no_duplicates()) by {
                assert forall|a: int, b: int| 0 <= a < f.len() + 1 && 0 <= b < f.len() + 1 && a != b implies f.push(e)[a] != f.push(e)[b] by {
                    if a == f.len() {
                        assert(f.contains(f[b]));
                    } else if b == f.len() {
                        assert(f.contains(f[a]));
                    }
                }
            }
            Seq::lemma_to_set_insert_commutes(f, e);
            assert(f + seq![e] =~= f.push(e));
        }
        assert(s.filter(p).to_set() =~= s.to_set().difference(x.to_set()));
    }
}

/// For one forbidden import with recorded usages R and current usages C
/// (neither with a file twice), a check reports one event in the source for
/// each file of C − R and one in the config for each file of R − C, and no
/// other event.
pub proof fn law_check_counts(
    name: Seq<char>,
    hint: Option<Seq<char>>,
    recorded: Seq<Seq<char>>,
    current: Seq<(Seq<char>, Position)>,
)
    requires
        recorded.no_duplicates(),
        usage_paths(current).no_duplicates(),
    ensures
        diff_events(name, hint, recorded, current) == in_source_events(name, hint, recorded, current)
            + in_config_events(name, recorded, current),
        forall|i: int|
            0 <= i < in_source_events(name, hint, recorded, current).len() ==> !(
            #[trigger] in_source_events(name, hint, recorded, current)[i]).3,
        forall|i: int|
            0 <= i < in_config_events(name, recorded, current).len() ==> (
            #[trigger] in_config_events(name, recorded, current)[i]).3,
        in_source_events(name, hint, recorded, current).len() == usage_paths(
            current,
        ).to_set().difference(recorded.to_set()).len(),
        in_config_events(name, recorded, current).len() == recorded.to_set().difference(
            usage_paths(current).to_set(),
        ).len(),
{
    let q = |p: Seq<char>| !recorded.contains(p);
    lemma_paths_of_unrecorded(current, recorded);
    lemma_filter_difference(usage_paths(current), recorded, q);
    usage_paths(current).filter(q).unique_seq_to_set();
    lemma_filter_difference(recorded, usage_paths(current), gone(current));
    recorded.filter(gone(current)).unique_seq_to_set();
}

/// The number of differences between the recorded usages R and the current
/// usages C of every forbidden import: |C − R| + |R − C|, import by import.
pub open spec fn change_count(
    fs: Seq<(Seq<char>, Option<Seq<char>>, Seq<Seq<char>>)>,
    m: Map<Seq<char>, Seq<(Seq<char>, Seq<char>, Position)>>,
    parent: Seq<char>,
) -> nat
    decreases fs.len(),
{
    if fs.len() == 0 {
        0
    } else {
        let e = fs.last();
        let c = usage_paths(current_usages(group_of(m, e.0), parent)).to_set();
        let r = e.2.to_set();
        change_count(fs.drop_last(), m, parent) + c.difference(r).len() + r.difference(c).len()
    }
}

/// A check over all forbidden imports reports exactly their differences,
/// |C − R| + |R − C| for each; every event names a forbidden import, and the
/// events come import by import, in increasing order of the names.
pub proof fn law_check_all_imports(
    fs: Seq<(Seq<char>, Option<Seq<char>>, Seq<Seq<char>>)>,
    m: Map<Seq<char>, Seq<(Seq<char>, Seq<char>, Position)>>,
    parent: Seq<char>,
)
    requires
        forbidden_wf(fs),
    ensures
        check_spec(fs, m, parent).len() == change_count(fs, m, parent),
        forall|k: int|
            0 <= k < check_spec(fs, m, parent).len() ==> exists|i: int|
                0 <= i < fs.len() && (#[trigger] check_spec(fs, m, parent)[k]).2 == fs[i].0,
        forall|a: int, b: int|
            0 <= a < b < check_spec(fs, m, parent).len() ==> (#[trigger] check_spec(fs, m, parent)[a]).2
                == (#[trigger] check_spec(fs, m, parent)[b]).2 || text_less(
                check_spec(fs, m, parent)[a].2,
                check_spec(fs, m, parent)[b].2,
            ),
    decreases fs.len(),
{
    if fs.len() > 0 {
        let pre = fs.drop_last();
        let e = fs.last();
        assert(forbidden_wf(pre)) by {
            assert forall|i: int, j: int| 0 <= i < j < pre.len() implies text_less(#[trigger] pre[i].0, #[trigger] pre[j].0) by {
                assert(pre[i] == fs[i] && pre[j] == fs[j]);
            }
            assert forall|i: int| 0 <= i < pre.len() implies (#[trigger] pre[i]).2.no_duplicates() by {
                assert(pre[i] == fs[i]);
            }
        }
        law_check_all_imports(pre, m, parent);
        let cur = current_usages(group_of(m, e.0), parent);
        lemma_current_usages_unique(group_of(m, e.0), parent);
        assert(e.2.no_duplicates()) by {
            assert(fs[fs.len() - 1] == e);
        }
        law_check_counts(e.0, e.1, e.2, cur);
        let p = check_spec(pre, m, parent);
        let d = diff_events(e.0, e.1, e.2, cur);
        let all = check_spec(fs, m, parent);
        assert(all == p + d);
        assert forall|k: int| 0 <= k < d.len() implies (#[trigger] d[k]).2 == e.0 by {
            let src = in_source_events(e.0, e.1, e.2, cur);
            if k < src.len() {
                assert(d[k] == src[k]);
            } else {
                assert(d[k] == in_config_events(e.0, e.2, cur)[k - src.len()]);
            }
        }
        assert forall|k: int| 0 <= k < all.len() implies exists|i: int| 0 <= i < fs.len() && (#[trigger] all[k]).2 == fs[i].0 by {
            if k < p.len() {
                assert(all[k] == p[k]);
                let i = choose|i: int| 0 <= i < pre.len() && p[k].2 == pre[i].0;
                assert(fs[i] == pre[i]);
            } else {
                assert(all[k] == d[k - p.len()]);
                assert(fs[fs.len() - 1].0 == all[k].2);
            }
        }
        assert forall|a: int, b: int| 0 <= a < b < all.len() implies (#[trigger] all[a]).2 == (#[trigger] all[b]).2 || text_less(all[a].2, all[b].2) by {
            if b < p.len() {
                assert(all[a] == p[a] && all[b] == p[b]);
            } else if a >= p.len() {
                assert(all[a] == d[a - p.len()] && all[b] == d[b - p.len()]);
            } else {
                assert(all[a] == p[a] && all[b] == d[b - p.len()]);
                let i = choose|i: int| 0 <= i < pre.len() && p[a].2 == pre[i].0;
                assert(fs[i] == pre[i]);
                assert(text_less(fs[i].0, fs[fs.len() - 1].0));
            }
        }
    }
}

/// After an update, a check against the same scan finds no difference.
pub proof fn law_update_then_check_is_clean(
    fs: Seq<(Seq<char>, Option<Seq<char>>, Seq<Seq<char>>)>,
    m: Map<Seq<char>, Seq<(Seq<char>, Seq<char>, Position)>>,
    parent: Seq<char>,
)
    ensures
        forall|i: int|
            0 <= i < fs.len() ==> (#[trigger] update_spec(fs, m, parent)[i]).2 == usage_paths(
                current_usages(group_of(m, fs[i].0), parent),
            ),
        check_spec(update_spec(fs, m, parent), m, parent) == Seq::<
            (Seq<char>, Option<Position>, Seq<char>, bool, Option<Seq<char>>),
        >::empty(),
    decreases fs.len(),
{
    if fs.len() > 0 {
        let u = update_spec(fs, m, parent);
        law_update_then_check_is_clean(fs.drop_last(), m, parent);
        assert(u.drop_last() =~= update_spec(fs.drop_last(), m, parent));
        let e = u.last();
        let cur = current_usages(group_of(m, e.0), parent);
        assert(e.2 == usage_paths(cur));
        assert forall|i: int| 0 <= i < cur.len() implies !unrecorded(usage_paths(cur))(#[trigger] cur[i]) by {
            assert(usage_paths(cur)[i] == cur[i].0);
        }
        lemma_filter_none(cur, unrecorded(usage_paths(cur)));
        assert forall|i: int| 0 <= i < usage_paths(cur).len() implies !gone(cur)(#[trigger] usage_paths(cur)[i]) by {}
        lemma_filter_none(usage_paths(cur), gone(cur));
        assert(diff_events(e.0, e.1, e.2, cur) =~= Seq::<
            (Seq<char>, Option<Position>, Seq<char>, bool, Option<Seq<char>>),
        >::empty());
        assert(check_spec(u, m, parent) =~= Seq::<
            (Seq<char>, Option<Position>, Seq<char>, bool, Option<Seq<char>>),
        >::empty());
    }
}

/// Adding a root that is not there yet and removing it again leaves the
/// roots as they were; where the path has no form relative to the store's
/// file, both steps fail and change nothing.
pub proof fn law_add_then_remove_root(config: Seq<char>, roots: Seq<Seq<char>>, path: Seq<char>)
    requires
        roots.no_duplicates(),
        relative_to_config(config, path) matches Ok(rel) ==> !roots.contains(rel),
    ensures
        ({
            let added = match relative_to_config(config, path) {
                Ok(rel) => add_root_spec(roots, rel),
                Err(_) => roots,
            };
            match relative_to_config(config, path) {
                Ok(rel) => remove_root_spec(added, rel),
                Err(_) => added,
            }
        }) == roots,
{
    if let Ok(rel) = relative_to_config(config, path) {
        roots.lemma_filter_push(rel, other_than(rel));
        assert forall|i: int| 0 <= i < roots.len() implies other_than(rel)(#[trigger] roots[i]) by {
            assert(roots.contains(roots[i]));
        }
        lemma_filter_all(roots, other_than(rel));
    }
}

} // verus!
