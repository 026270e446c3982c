//! Properties of the library that span several of its functions.

use vstd::prelude::*;
use crate::group::{active, deleted_copy, group_status, sizes_agree, FileGroup, GroupStatus, Occurrence};
use crate::labels::status_text;
use crate::listing::{files_named, is_grouping, occurrences_match, FoundFile};
use crate::session::count_status;
use crate::session::{count_duplicates, deletable};
use crate::text::{lemma_str_lt_irreflexive, lemma_str_lt_transitive, with_forward_slashes};

verus! {

broadcast use {vstd::set::group_set_axioms, vstd::seq_lib::group_seq_properties};

/// Every group has exactly one status: the numbers of groups that match, that
/// differ in size, that are only in A and only in B add up to the number of
/// groups, and no more groups hold duplicates than there are groups.
pub proof fn lemma_summary_partitions(gs: Seq<FileGroup>)
    ensures
        count_status(gs, GroupStatus::Match) + count_status(gs, GroupStatus::SizeMismatch)
            + count_status(gs, GroupStatus::OnlyA) + count_status(gs, GroupStatus::OnlyB)
            == gs.len(),
        count_duplicates(gs) <= gs.len(),
    decreases gs.len(),
{
    if gs.len() > 0 {
        lemma_summary_partitions(gs.drop_last());
    }
}

/// The four statuses have four different labels.
pub proof fn lemma_status_labels_distinct(s: GroupStatus, t: GroupStatus)
    requires
        s != t,
    ensures
        status_text(s) != status_text(t),
{
    reveal_strlit("Match");
    reveal_strlit("Size mismatch");
    reveal_strlit("Only in A");
    reveal_strlit("Only in B");
    if status_text(s) == status_text(t) {
        assert(status_text(s).len() == status_text(t).len());
        assert(status_text(s)[8] == status_text(t)[8]);
    }
}

/// The occurrences left in `s` are exactly its occurrences that are not deleted.
pub proof fn lemma_active_members(s: Seq<Occurrence>)
    ensures
        forall|k: int|
            0 <= k < active(s).len() ==> !(#[trigger] active(s)[k]).deleted && s.contains(
                active(s)[k],
            ),
        forall|i: int| 0 <= i < s.len() && !s[i].deleted ==> active(s).contains(#[trigger] s[i]),
    decreases s.len(),
{
    if s.len() > 0 {
        let t = s.drop_last();
        lemma_active_members(t);
        assert forall|k: int| 0 <= k < active(s).len() implies !(#[trigger] active(
            s,
        )[k]).deleted && s.contains(active(s)[k]) by {
            if k < active(t).len() {
                assert(active(s)[k] == active(t)[k]);
                let i = choose|i: int| 0 <= i < t.len() && t[i] == active(t)[k];
                assert(s[i] == t[i]);
            } else {
                assert(s[s.len() - 1] == active(s)[k]);
            }
        }
        assert forall|i: int| 0 <= i < s.len() && !s[i].deleted implies active(s).contains(
            #[trigger] s[i],
        ) by {
            if i < s.len() - 1 {
                assert(t[i] == s[i]);
                let k = choose|k: int| 0 <= k < active(t).len() && active(t)[k] == t[i];
                assert(active(s)[k] == active(t)[k]);
            } else {
                assert(active(s)[active(s).len() - 1] == s[i]);
            }
        }
    }
}

/// The distinct sizes of the occurrences of a group that are not deleted.
pub open spec fn active_sizes(g: FileGroup) -> Set<u64> {
    (active(g.in_a@) + active(g.in_b@)).map_values(|o: Occurrence| o.size).to_set()
}

/// When both sides hold a copy, a group matches exactly when its copies come
/// in one size, and differs in size exactly when they come in two or more.
pub proof fn lemma_status_counts_sizes(g: FileGroup)
    requires
        active(g.in_a@).len() > 0,
        active(g.in_b@).len() > 0,
    ensures
        (group_status(g) == GroupStatus::Match) <==> active_sizes(g).len() == 1,
        (group_status(g) == GroupStatus::SizeMismatch) <==> active_sizes(g).len() >= 2,
{
    let c = active(g.in_a@) + active(g.in_b@);
    let sz = c.map_values(|o: Occurrence| o.size);
    let set = sz.to_set();
    lemma_active_members(g.in_a@);
    lemma_active_members(g.in_b@);
    assert(set.finite());
    assert(set.contains(sz[0]));
    assert(set.len() >= 1);
    if sizes_agree(g) {
        let z = choose|z: u64|
            crate::group::all_active_sized(g.in_a@, z) && crate::group::all_active_sized(g.in_b@, z);
        assert forall|w: u64| set.contains(w) implies w == z by {
            let k = choose|k: int| 0 <= k < sz.len() && sz[k] == w;
            if k < active(g.in_a@).len() {
                let o = active(g.in_a@)[k];
                assert(c[k] == o);
                let i = choose|i: int| 0 <= i < g.in_a@.len() && g.in_a@[i] == o;
            } else {
                let o = active(g.in_b@)[k - active(g.in_a@).len()];
                assert(c[k] == o);
                let i = choose|i: int| 0 <= i < g.in_b@.len() && g.in_b@[i] == o;
            }
        }
        assert(set =~= set![z]);
    } else {
        let w = sz[0];
        let w_is_not_all = !(crate::group::all_active_sized(g.in_a@, w)
            && crate::group::all_active_sized(g.in_b@, w));
        assert(w_is_not_all);
        let v: u64;
        if !crate::group::all_active_sized(g.in_a@, w) {
            let i = choose|i: int| 0 <= i < g.in_a@.len() && !g.in_a@[i].deleted && g.in_a@[i].size != w;
            assert(active(g.in_a@).contains(g.in_a@[i]));
            let k = choose|k: int| 0 <= k < active(g.in_a@).len() && active(g.in_a@)[k] == g.in_a@[i];
            assert(c[k] == g.in_a@[i]);
            assert(sz[k] == g.in_a@[i].size);
            v = g.in_a@[i].size;
        } else {
            let i = choose|i: int| 0 <= i < g.in_b@.len() && !g.in_b@[i].deleted && g.in_b@[i].size != w;
            assert(active(g.in_b@).contains(g.in_b@[i]));
            let k = choose|k: int| 0 <= k < active(g.in_b@).len() && active(g.in_b@)[k] == g.in_b@[i];
            let kk = k + active(g.in_a@).len();
            assert(c[kk] == g.in_b@[i]);
            assert(sz[kk] == g.in_b@[i].size);
            v = g.in_b@[i].size;
        }
        assert(set.contains(v));
        assert(v != w);
        vstd::set_lib::lemma_len_subset(set![w, v], set);
        assert(set![w, v].len() == 2);
    }
}

/// The file at position `k` of `fs` is among the files of its own name.
proof fn lemma_files_named_contains(fs: Seq<FoundFile>, k: int)
    requires
        0 <= k < fs.len(),
    ensures
        files_named(fs, fs[k].file_name@).contains(fs[k]),
    decreases fs.len(),
{
    let n = fs[k].file_name@;
    if k < fs.len() - 1 {
        lemma_files_named_contains(fs.drop_last(), k);
        assert(fs.drop_last()[k] == fs[k]);
        let j = choose|j: int|
            0 <= j < files_named(fs.drop_last(), n).len() && files_named(fs.drop_last(), n)[j]
                == fs[k];
        assert(files_named(fs, n)[j] == fs[k]);
    } else {
        let r = files_named(fs, n);
        assert(r[r.len() - 1] == fs[k]);
    }
}

/// A comparison loses no file: every file found under the first root lies in
/// exactly one group, the one of its name, as an occurrence with its path
/// (separators made `/`) and size.
pub proof fn lemma_grouping_keeps_files_of_a(
    gs: Seq<FileGroup>,
    fa: Seq<FoundFile>,
    fb: Seq<FoundFile>,
    k: int,
)
    requires
        is_grouping(gs, fa, fb),
        0 <= k < fa.len(),
    ensures
        exists|i: int|
            #![trigger gs[i]]
            0 <= i < gs.len() && gs[i].name@ == fa[k].file_name@ && exists|j: int|
                0 <= j < gs[i].in_a@.len() && (#[trigger] gs[i].in_a@[j]).rel_path@
                    == with_forward_slashes(fa[k].rel_path@) && gs[i].in_a@[j].size == fa[k].size,
        forall|i1: int, i2: int|
            0 <= i1 < gs.len() && 0 <= i2 < gs.len() && gs[i1].name@ == fa[k].file_name@
                && gs[i2].name@ == fa[k].file_name@ ==> i1 == i2,
{
    let n = fa[k].file_name@;
    assert(crate::listing::has_group(gs, n));
    let i = choose|i: int| 0 <= i < gs.len() && gs[i].name@ == n;
    lemma_files_named_contains(fa, k);
    let j = choose|j: int| 0 <= j < files_named(fa, n).len() && files_named(fa, n)[j] == fa[k];
    assert(occurrences_match(gs[i].in_a@, files_named(fa, n)));
    assert(gs[i].in_a@[j].rel_path@ == with_forward_slashes(fa[k].rel_path@));
    assert forall|i1: int, i2: int|
        0 <= i1 < gs.len() && 0 <= i2 < gs.len() && gs[i1].name@ == n && gs[i2].name@ == n implies i1
        == i2 by {
        if i1 < i2 {
            assert(crate::text::str_lt(gs[i1].name@, gs[i2].name@));
            lemma_str_lt_irreflexive(n);
        } else if i2 < i1 {
            assert(crate::text::str_lt(gs[i2].name@, gs[i1].name@));
            lemma_str_lt_irreflexive(n);
        }
    }
}

/// Right after a comparison every group holds a copy that is not deleted.
pub proof fn lemma_grouping_groups_nonempty(gs: Seq<FileGroup>, fa: Seq<FoundFile>, fb: Seq<FoundFile>, i: int)
    requires
        is_grouping(gs, fa, fb),
        0 <= i < gs.len(),
    ensures
        active(gs[i].in_a@).len() + active(gs[i].in_b@).len() > 0,
{
    let n = gs[i].name@;
    crate::group::lemma_active_empty(gs[i].in_a@);
    crate::group::lemma_active_empty(gs[i].in_b@);
    if crate::listing::names_file(fa, n) {
        let k = choose|k: int| 0 <= k < fa.len() && fa[k].file_name@ == n;
        lemma_files_named_contains(fa, k);
        assert(!gs[i].in_a@[0].deleted);
    } else {
        let k = choose|k: int| 0 <= k < fb.len() && fb[k].file_name@ == n;
        lemma_files_named_contains(fb, k);
        assert(!gs[i].in_b@[0].deleted);
    }
}

/// Marking an occurrence as deleted removes exactly one copy when it was not
/// deleted yet, and changes nothing otherwise.
pub proof fn lemma_delete_removes_one(s: Seq<Occurrence>, oi: int)
    requires
        0 <= oi < s.len(),
    ensures
        active(s.update(oi, deleted_copy(s[oi]))).len() == if s[oi].deleted {
            active(s).len()
        } else {
            (active(s).len() - 1) as nat
        },
    decreases s.len(),
{
    let u = s.update(oi, deleted_copy(s[oi]));
    if oi < s.len() - 1 {
        assert(u.drop_last() =~= s.drop_last().update(oi, deleted_copy(s.drop_last()[oi])));
        lemma_delete_removes_one(s.drop_last(), oi);
        crate::group::lemma_active_empty(s.drop_last());
    } else {
        assert(u.drop_last() =~= s.drop_last());
    }
}


/// Deleting a copy offered for removal never removes the last copy on a
/// side: each side holds a copy afterwards exactly when it did before, so a
/// group never becomes "only in A" or "only in B" by it.
pub proof fn lemma_delete_keeps_presence(g: FileGroup, h: FileGroup, is_a: bool, oi: int)
    requires
        deletable(g, is_a, oi),
        h.name == g.name,
        is_a ==> h.in_a@ == g.in_a@.update(oi, deleted_copy(g.in_a@[oi])) && h.in_b@ == g.in_b@,
        !is_a ==> h.in_b@ == g.in_b@.update(oi, deleted_copy(g.in_b@[oi])) && h.in_a@ == g.in_a@,
    ensures
        (active(h.in_a@).len() > 0) == (active(g.in_a@).len() > 0),
        (active(h.in_b@).len() > 0) == (active(g.in_b@).len() > 0),
        (group_status(h) == GroupStatus::OnlyA) == (group_status(g) == GroupStatus::OnlyA),
        (group_status(h) == GroupStatus::OnlyB) == (group_status(g) == GroupStatus::OnlyB),
{
    if is_a {
        lemma_delete_removes_one(g.in_a@, oi);
    } else {
        lemma_delete_removes_one(g.in_b@, oi);
    }
}

} // verus!
