//! From the files found under two roots to groups of files by name.

use vstd::prelude::*;
use crate::group::{FileGroup, Occurrence};
use crate::session::App;
use crate::text::{
    lemma_str_lt_irreflexive, lemma_str_lt_total, lemma_str_lt_transitive, normalize_separators,
    str_less, str_lt, with_forward_slashes,
};

verus! {

/// A file as the walk of a directory reports it.
#[derive(Debug)]
pub struct FoundFile {
    /// The file's own name (last path component).
    pub file_name: String,
    /// The path relative to the walked root, with the platform's separators.
    pub rel_path: String,
    /// Size in bytes.
    pub size: u64,
}

/// The list of files found under one root, grouped by file name: for each
/// name, the relative paths (with `/` as separator) and sizes of the files
/// that carry it, in walk order.
pub type NameMap = Vec<(String, Vec<(String, u64)>)>;

/// The files of `fs` whose name is `n`, in order.
pub open spec fn files_named(fs: Seq<FoundFile>, n: Seq<char>) -> Seq<FoundFile>
    decreases fs.len(),
{
    if fs.len() == 0 {
        Seq::empty()
    } else {
        let rest = files_named(fs.drop_last(), n);
        if fs.last().file_name@ == n {
            rest.push(fs.last())
        } else {
            rest
        }
    }
}

/// Some file of `fs` has the name `n`.
pub open spec fn names_file(fs: Seq<FoundFile>, n: Seq<char>) -> bool {
    exists|k: int| 0 <= k < fs.len() && fs[k].file_name@ == n
}

/// Some entry of the name map `m` is for the name `n`.
pub open spec fn map_has_name(m: Seq<(String, Vec<(String, u64)>)>, n: Seq<char>) -> bool {
    exists|i: int| 0 <= i < m.len() && m[i].0@ == n
}

/// Some group of `gs` is for the name `n`.
pub open spec fn has_group(gs: Seq<FileGroup>, n: Seq<char>) -> bool {
    exists|i: int| 0 <= i < gs.len() && gs[i].name@ == n
}

/// Some string of `v` is `n`.
pub open spec fn has_string(v: Seq<String>, n: Seq<char>) -> bool {
    exists|i: int| 0 <= i < v.len() && v[i]@ == n
}

/// `es` lists the relative paths and sizes of `fs`, in the same order.
pub open spec fn entries_match(es: Seq<(String, u64)>, fs: Seq<FoundFile>) -> bool {
    &&& es.len() == fs.len()
    &&& forall|j: int|
        0 <= j < es.len() ==> es[j].0@ == with_forward_slashes(fs[j].rel_path@) && es[j].1
            == fs[j].size
}

/// `m` groups the files `fs` by name: each name once, every name of a file,
/// and for each name the files that carry it.
pub open spec fn is_name_map(m: Seq<(String, Vec<(String, u64)>)>, fs: Seq<FoundFile>) -> bool {
    &&& forall|i: int, j: int| 0 <= i < j < m.len() ==> m[i].0@ != m[j].0@
    &&& forall|i: int| 0 <= i < m.len() ==> names_file(fs, #[trigger] m[i].0@)
    &&& forall|k: int| 0 <= k < fs.len() ==> map_has_name(m, #[trigger] fs[k].file_name@)
    &&& forall|i: int| 0 <= i < m.len() ==> entries_match(m[i].1@, files_named(fs, m[i].0@))
}

/// `os` are fresh occurrences of the files `fs`, in the same order.
pub open spec fn occurrences_match(os: Seq<Occurrence>, fs: Seq<FoundFile>) -> bool {
    &&& os.len() == fs.len()
    &&& forall|j: int|
        0 <= j < os.len() ==> {
            &&& os[j].rel_path@ == with_forward_slashes(fs[j].rel_path@)
            &&& os[j].size == fs[j].size
            &&& !os[j].deleted
        }
}

/// The names of `gs` are in strictly increasing order.
pub open spec fn names_sorted(gs: Seq<FileGroup>) -> bool {
    forall|i: int, j: int| 0 <= i < j < gs.len() ==> str_lt(gs[i].name@, gs[j].name@)
}

/// `gs` groups the files `fa` and `fb` by name: one group per name that
/// occurs on either side, in increasing name order, each with the files of
/// that name on each side in walk order.
pub open spec fn is_grouping(gs: Seq<FileGroup>, fa: Seq<FoundFile>, fb: Seq<FoundFile>) -> bool {
    &&& names_sorted(gs)
    &&& forall|i: int|
        0 <= i < gs.len() ==> names_file(fa, #[trigger] gs[i].name@) || names_file(fb, gs[i].name@)
    &&& forall|k: int| 0 <= k < fa.len() ==> has_group(gs, #[trigger] fa[k].file_name@)
    &&& forall|k: int| 0 <= k < fb.len() ==> has_group(gs, #[trigger] fb[k].file_name@)
    &&& forall|i: int|
        0 <= i < gs.len() ==> occurrences_match(gs[i].in_a@, files_named(fa, gs[i].name@))
            && occurrences_match(gs[i].in_b@, files_named(fb, gs[i].name@))
}

/// The files named `n` among the first `k + 1` extend those among the first `k`.
proof fn lemma_files_named_take(fs: Seq<FoundFile>, n: Seq<char>, k: int)
    requires
        0 <= k < fs.len(),
    ensures
        files_named(fs.take(k + 1), n) == if fs[k].file_name@ == n {
            files_named(fs.take(k), n).push(fs[k])
        } else {
            files_named(fs.take(k), n)
        },
{
    assert(fs.take(k + 1).drop_last() =~= fs.take(k));
}

/// No file carries a name that no file has.
proof fn lemma_files_named_absent(fs: Seq<FoundFile>, n: Seq<char>)
    requires
        !names_file(fs, n),
    ensures
        files_named(fs, n).len() == 0,
    decreases fs.len(),
{
    if fs.len() > 0 {
        assert(!names_file(fs.drop_last(), n)) by {
            if names_file(fs.drop_last(), n) {
                let k = choose|k: int| 0 <= k < fs.drop_last().len() && fs.drop_last()[k].file_name@ == n;
                assert(fs[k].file_name@ == n);
            }
        }
        lemma_files_named_absent(fs.drop_last(), n);
        assert(fs[fs.len() - 1].file_name@ != n);
    }
}

/// Whether some string of `v` equals `s`.
fn position_of(v: &Vec<String>, s: &String) -> (r: Option<usize>)
    ensures
        match r {
            Some(i) => i < v@.len() && v@[i as int]@ == s@,
            None => forall|i: int| 0 <= i < v@.len() ==> v@[i]@ != s@,
        },
{
    let mut i: usize = 0;
    while i < v.len()
        invariant
            i <= v@.len(),
            forall|k: int| 0 <= k < i ==> v@[k]@ != s@,
        decreases v@.len() - i,
    {
        if v[i] == *s {
            return Some(i);
        }
        i = i + 1;
    }
    None
}

/// The distinct file names of `files`, in order of first appearance.
fn distinct_names(files: &Vec<FoundFile>) -> (names: Vec<String>)
    ensures
        forall|i: int, j: int| 0 <= i < j < names@.len() ==> names@[i]@ != names@[j]@,
        forall|i: int| 0 <= i < names@.len() ==> names_file(files@, #[trigger] names@[i]@),
        forall|k: int| 0 <= k < files@.len() ==> has_string(names@, #[trigger] files@[k].file_name@),
{
    let mut names: Vec<String> = Vec::new();
    let mut k: usize = 0;
    while k < files.len()
        invariant
            k <= files@.len(),
            forall|i: int, j: int| 0 <= i < j < names@.len() ==> names@[i]@ != names@[j]@,
            forall|i: int| 0 <= i < names@.len() ==> names_file(files@, #[trigger] names@[i]@),
            forall|q: int| 0 <= q < k ==> has_string(names@, #[trigger] files@[q].file_name@),
        decreases files@.len() - k,
    {
        let ghost old_names = names@;
        let ghost at: int;
        match position_of(&names, &files[k].file_name) {
            Some(p) => {
                proof {
                    at = p as int;
                }
            },
            None => {
                let n = files[k].file_name.clone();
                names.push(n);
                proof {
                    at = names@.len() - 1;
                }
                assert(names_file(files@, names@[names@.len() - 1]@));
            },
        }
        assert(names@[at]@ == files@[k as int].file_name@);
        assert forall|q: int| 0 <= q < k + 1 implies has_string(
            names@,
            #[trigger] files@[q].file_name@,
        ) by {
            if q < k {
                assert(has_string(old_names, files@[q].file_name@));
                let i = choose|i: int| 0 <= i < old_names.len() && old_names[i]@ == files@[q].file_name@;
                assert(names@[i] == old_names[i]);
            } else {
                assert(names@[at]@ == files@[q].file_name@);
            }
        }
        k = k + 1;
    }
    assert(k == files@.len());
    names
}

/// The relative paths (with `/` as separator) and sizes of the files named `name`.
fn entries_for(files: &Vec<FoundFile>, name: &String) -> (es: Vec<(String, u64)>)
    ensures
        entries_match(es@, files_named(files@, name@)),
{
    let mut es: Vec<(String, u64)> = Vec::new();
    let mut k: usize = 0;
    while k < files.len()
        invariant
            k <= files@.len(),
            entries_match(es@, files_named(files@.take(k as int), name@)),
        decreases files@.len() - k,
    {
        proof {
            lemma_files_named_take(files@, name@, k as int);
        }
        if files[k].file_name == *name {
            let rel = normalize_separators(files[k].rel_path.as_str());
            es.push((rel, files[k].size));
        }
        k = k + 1;
    }
    assert(files@.take(files@.len() as int) =~= files@);
    es
}

impl App {
    /// Groups the files found under one root by file name.
    pub fn build_name_map(files: &Vec<FoundFile>) -> (m: NameMap)
        ensures
            is_name_map(m@, files@),
    {
        let names = distinct_names(files);
        let mut m: NameMap = Vec::new();
        let mut i: usize = 0;
        while i < names.len()
            invariant
                i <= names@.len(),
                m@.len() == i,
                forall|p: int| 0 <= p < i ==> #[trigger] m@[p].0@ == names@[p]@,
                forall|p: int|
                    0 <= p < i ==> entries_match(m@[p].1@, files_named(files@, names@[p]@)),
            decreases names@.len() - i,
        {
            let es = entries_for(files, &names[i]);
            m.push((names[i].clone(), es));
            i = i + 1;
        }
        assert forall|k: int| 0 <= k < files@.len() implies map_has_name(
            m@,
            #[trigger] files@[k].file_name@,
        ) by {
            assert(has_string(names@, files@[k].file_name@));
            let i = choose|i: int| 0 <= i < names@.len() && names@[i]@ == files@[k].file_name@;
            assert(m@[i].0@ == names@[i]@);
        }
        assert forall|i: int| 0 <= i < m@.len() implies names_file(files@, #[trigger] m@[i].0@) by {
            assert(m@[i].0@ == names@[i]@);
        }
        assert forall|i: int| 0 <= i < m@.len() implies entries_match(
            m@[i].1@,
            files_named(files@, m@[i].0@),
        ) by {
            assert(m@[i].0@ == names@[i]@);
        }
        assert forall|i: int, j: int| 0 <= i < j < m@.len() implies m@[i].0@ != m@[j].0@ by {
            assert(m@[i].0@ == names@[i]@);
            assert(m@[j].0@ == names@[j]@);
        }
        m
    }
}


/// The strings of `v` are in strictly increasing order.
pub open spec fn strictly_sorted(v: Seq<String>) -> bool {
    forall|i: int, j: int| 0 <= i < j < v.len() ==> str_lt(v[i]@, v[j]@)
}

/// Inserts `x` into the strictly increasing `v` unless it is there already.
fn insert_sorted(v: &mut Vec<String>, x: &String)
    requires
        strictly_sorted(old(v)@),
    ensures
        strictly_sorted(final(v)@),
        forall|n: Seq<char>| #[trigger]
            has_string(final(v)@, n) <==> (has_string(old(v)@, n) || n == x@),
{
    let ghost old_v = v@;
    assert(old_v == old(v)@);
    let mut i: usize = 0;
    while i < v.len()
        invariant
            v@ == old_v,
            old_v == old(v)@,
            strictly_sorted(old_v),
            i <= old_v.len(),
            forall|k: int| 0 <= k < i ==> str_lt(#[trigger] old_v[k]@, x@),
        decreases old_v.len() - i,
    {
        if v[i] == *x {
            assert(has_string(old_v, x@));
            assert forall|n: Seq<char>| #[trigger]
                has_string(v@, n) <==> (has_string(old_v, n) || n == x@) by {
                if n == x@ {
                    assert(has_string(old_v, n));
                }
            }
            return;
        }
        if str_less(x.as_str(), v[i].as_str()) {
            v.insert(i, x.clone());
            proof {
                let nv = v@;
                assert(nv =~= old_v.insert(i as int, *x));
                assert forall|p: int, q: int| 0 <= p < q < nv.len() implies str_lt(
                    nv[p]@,
                    nv[q]@,
                ) by {
                    if q < i {
                    } else if q == i {
                        assert(nv[q]@ == x@);
                        assert(str_lt(old_v[p]@, x@));
                    } else if p < i {
                        assert(nv[q] == old_v[q - 1]);
                        assert(str_lt(old_v[p]@, x@));
                        if q - 1 > i {
                            assert(str_lt(old_v[i as int]@, old_v[q - 1]@));
                            lemma_str_lt_transitive(x@, old_v[i as int]@, old_v[q - 1]@);
                        }
                        lemma_str_lt_transitive(old_v[p]@, x@, old_v[q - 1]@);
                    } else if p == i {
                        assert(nv[q] == old_v[q - 1]);
                        if q - 1 > i {
                            assert(str_lt(old_v[i as int]@, old_v[q - 1]@));
                            lemma_str_lt_transitive(x@, old_v[i as int]@, old_v[q - 1]@);
                        }
                    } else {
                        assert(nv[q] == old_v[q - 1]);
                        assert(nv[p] == old_v[p - 1]);
                    }
                }
                assert forall|n: Seq<char>| #[trigger]
                    has_string(nv, n) <==> (has_string(old_v, n) || n == x@) by {
                    if has_string(nv, n) {
                        let p = choose|p: int| 0 <= p < nv.len() && nv[p]@ == n;
                        if p < i {
                            assert(old_v[p]@ == n);
                        } else if p > i {
                            assert(old_v[p - 1]@ == n);
                        }
                    }
                    if has_string(old_v, n) {
                        let p = choose|p: int| 0 <= p < old_v.len() && old_v[p]@ == n;
                        if p < i {
                            assert(nv[p]@ == n);
                        } else {
                            assert(nv[p + 1]@ == n);
                        }
                    }
                    if n == x@ {
                        assert(nv[i as int]@ == n);
                    }
                }
            }
            return;
        }
        proof {
            lemma_str_lt_total(v@[i as int]@, x@);
        }
        i = i + 1;
    }
    v.push(x.clone());
    proof {
        let nv = v@;
        assert forall|p: int, q: int| 0 <= p < q < nv.len() implies str_lt(nv[p]@, nv[q]@) by {
            if q < old_v.len() {
                assert(nv[p] == old_v[p]);
                assert(nv[q] == old_v[q]);
            } else {
                assert(nv[p] == old_v[p]);
                assert(str_lt(old_v[p]@, x@));
            }
        }
        assert forall|n: Seq<char>| #[trigger]
            has_string(nv, n) <==> (has_string(old_v, n) || n == x@) by {
            if has_string(nv, n) {
                let p = choose|p: int| 0 <= p < nv.len() && nv[p]@ == n;
                if p < old_v.len() {
                    assert(old_v[p]@ == n);
                }
            }
            if has_string(old_v, n) {
                let p = choose|p: int| 0 <= p < old_v.len() && old_v[p]@ == n;
                assert(nv[p]@ == n);
            }
            if n == x@ {
                assert(nv[old_v.len() as int]@ == n);
            }
        }
    }
}


/// A name of a file of `fs` has an entry in its name map.
proof fn lemma_name_map_covers(m: Seq<(String, Vec<(String, u64)>)>, fs: Seq<FoundFile>, n: Seq<char>)
    requires
        is_name_map(m, fs),
        names_file(fs, n),
    ensures
        map_has_name(m, n),
{
    let k = choose|k: int| 0 <= k < fs.len() && fs[k].file_name@ == n;
    assert(map_has_name(m, fs[k].file_name@));
}

/// The position of the entry of `m` for the name `n`, if any.
fn find_name(m: &NameMap, n: &String) -> (r: Option<usize>)
    ensures
        match r {
            Some(i) => i < m@.len() && m@[i as int].0@ == n@,
            None => !map_has_name(m@, n@),
        },
{
    let mut i: usize = 0;
    while i < m.len()
        invariant
            i <= m@.len(),
            forall|k: int| 0 <= k < i ==> m@[k].0@ != n@,
        decreases m@.len() - i,
    {
        if m[i].0 == *n {
            return Some(i);
        }
        i = i + 1;
    }
    None
}

/// Fresh occurrences of the listed relative paths and sizes.
fn to_occurrences(es: &Vec<(String, u64)>) -> (os: Vec<Occurrence>)
    ensures
        os@.len() == es@.len(),
        forall|j: int|
            0 <= j < os@.len() ==> {
                &&& os@[j].rel_path@ == es@[j].0@
                &&& os@[j].size == es@[j].1
                &&& !os@[j].deleted
            },
{
    let mut os: Vec<Occurrence> = Vec::new();
    let mut j: usize = 0;
    while j < es.len()
        invariant
            j <= es@.len(),
            os@.len() == j,
            forall|q: int|
                0 <= q < j ==> {
                    &&& os@[q].rel_path@ == es@[q].0@
                    &&& os@[q].size == es@[q].1
                    &&& !os@[q].deleted
                },
        decreases es@.len() - j,
    {
        os.push(Occurrence { rel_path: es[j].0.clone(), size: es[j].1, deleted: false });
        j = j + 1;
    }
    os
}

/// The occurrences of the files of one side that carry the name `n`.
fn side_occurrences(m: &NameMap, n: &String, Ghost(fs): Ghost<Seq<FoundFile>>) -> (os: Vec<Occurrence>)
    requires
        is_name_map(m@, fs),
    ensures
        occurrences_match(os@, files_named(fs, n@)),
{
    match find_name(m, n) {
        Some(i) => {
            let os = to_occurrences(&m[i].1);
            assert(entries_match(m@[i as int].1@, files_named(fs, m@[i as int].0@)));
            os
        },
        None => {
            proof {
                if names_file(fs, n@) {
                    lemma_name_map_covers(m@, fs, n@);
                }
                lemma_files_named_absent(fs, n@);
            }
            Vec::new()
        },
    }
}

/// Inserts every name of the name map `m` into the strictly increasing `names`.
fn insert_map_names(names: &mut Vec<String>, m: &NameMap)
    requires
        strictly_sorted(old(names)@),
    ensures
        strictly_sorted(final(names)@),
        forall|n: Seq<char>| #[trigger]
            has_string(final(names)@, n) <==> (has_string(old(names)@, n) || map_has_name(m@, n)),
{
    let ghost start = names@;
    let mut i: usize = 0;
    while i < m.len()
        invariant
            i <= m@.len(),
            strictly_sorted(names@),
            forall|n: Seq<char>| #[trigger]
                has_string(names@, n) <==> (has_string(start, n) || map_has_name(
                    m@.take(i as int),
                    n,
                )),
        decreases m@.len() - i,
    {
        insert_sorted(names, &m[i].0);
        assert forall|n: Seq<char>| #[trigger]
            has_string(names@, n) <==> (has_string(start, n) || map_has_name(
                m@.take(i + 1),
                n,
            )) by {
            let t = m@.take(i as int);
            let t1 = m@.take(i + 1);
            if map_has_name(t, n) {
                let p = choose|p: int| 0 <= p < t.len() && t[p].0@ == n;
                assert(t1[p] == t[p]);
            }
            if map_has_name(t1, n) {
                let p = choose|p: int| 0 <= p < t1.len() && t1[p].0@ == n;
                if p < i {
                    assert(t1[p] == t[p]);
                }
            }
            if n == m@[i as int].0@ {
                assert(t1[i as int] == m@[i as int]);
            }
        }
        i = i + 1;
    }
    assert(m@.take(m@.len() as int) =~= m@);
}

/// Groups the files found under two roots by file name: one group per name,
/// in increasing name order, with the files of that name on each side.
pub fn group_files(files_a: &Vec<FoundFile>, files_b: &Vec<FoundFile>) -> (gs: Vec<FileGroup>)
    ensures
        is_grouping(gs@, files_a@, files_b@),
{
    let map_a = App::build_name_map(files_a);
    let map_b = App::build_name_map(files_b);
    let mut names: Vec<String> = Vec::new();
    insert_map_names(&mut names, &map_a);
    insert_map_names(&mut names, &map_b);
    let mut gs: Vec<FileGroup> = Vec::new();
    let mut g: usize = 0;
    while g < names.len()
        invariant
            g <= names@.len(),
            gs@.len() == g,
            is_name_map(map_a@, files_a@),
            is_name_map(map_b@, files_b@),
            forall|p: int| 0 <= p < g ==> #[trigger] gs@[p].name@ == names@[p]@,
            forall|p: int|
                0 <= p < g ==> occurrences_match(gs@[p].in_a@, files_named(files_a@, names@[p]@))
                    && occurrences_match(gs@[p].in_b@, files_named(files_b@, names@[p]@)),
        decreases names@.len() - g,
    {
        let in_a = side_occurrences(&map_a, &names[g], Ghost(files_a@));
        let in_b = side_occurrences(&map_b, &names[g], Ghost(files_b@));
        gs.push(FileGroup { name: names[g].clone(), in_a, in_b });
        g = g + 1;
    }
    proof {
        let gv = gs@;
        assert forall|p: int, q: int| 0 <= p < q < gv.len() implies str_lt(
            gv[p].name@,
            gv[q].name@,
        ) by {
            assert(gv[p].name@ == names@[p]@);
            assert(gv[q].name@ == names@[q]@);
        }
        assert forall|p: int| 0 <= p < gv.len() implies names_file(
            files_a@,
            #[trigger] gv[p].name@,
        ) || names_file(files_b@, gv[p].name@) by {
            let n = gv[p].name@;
            assert(has_string(names@, n));
            if map_has_name(map_a@, n) {
                let e = choose|e: int| 0 <= e < map_a@.len() && map_a@[e].0@ == n;
                assert(names_file(files_a@, map_a@[e].0@));
            } else {
                let e = choose|e: int| 0 <= e < map_b@.len() && map_b@[e].0@ == n;
                assert(names_file(files_b@, map_b@[e].0@));
            }
        }
        assert forall|k: int| 0 <= k < files_a@.len() implies has_group(
            gv,
            #[trigger] files_a@[k].file_name@,
        ) by {
            let n = files_a@[k].file_name@;
            assert(map_has_name(map_a@, n));
            assert(has_string(names@, n));
            let p = choose|p: int| 0 <= p < names@.len() && names@[p]@ == n;
            assert(gv[p].name@ == n);
        }
        assert forall|k: int| 0 <= k < files_b@.len() implies has_group(
            gv,
            #[trigger] files_b@[k].file_name@,
        ) by {
            let n = files_b@[k].file_name@;
            assert(map_has_name(map_b@, n));
            assert(has_string(names@, n));
            let p = choose|p: int| 0 <= p < names@.len() && names@[p]@ == n;
            assert(gv[p].name@ == n);
        }
        assert forall|p: int| 0 <= p < gv.len() implies occurrences_match(
            gv[p].in_a@,
            files_named(files_a@, gv[p].name@),
        ) && occurrences_match(gv[p].in_b@, files_named(files_b@, gv[p].name@)) by {
            assert(gv[p].name@ == names@[p]@);
        }
    }
    gs
}

} // verus!
