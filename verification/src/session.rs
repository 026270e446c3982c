//! The state of a comparison session: the two roots, the groups found, the
//! display filters, and what the actions of the user do to them.

use vstd::prelude::*;
use vstd::utf8::encode_utf8;
use crate::group::{active, deleted_copy, group_status, FileGroup, GroupStatus};
use crate::listing::{group_files, is_grouping, FoundFile};
use crate::text::{bytes_contain, lowercase, str_contains, to_lowercase};

verus! {

/// A comparison session.
pub struct App {
    /// The first root, as typed or picked.
    pub dir_a: String,
    /// The second root, as typed or picked.
    pub dir_b: String,
    /// The groups of the last comparison, in increasing name order.
    pub groups: Vec<FileGroup>,
    /// Whether `groups` holds the result of a comparison.
    pub compared: bool,
    /// The message of the last failure, if any.
    pub error: Option<String>,
    /// Show groups whose status is `Match`.
    pub show_matches: bool,
    /// Show groups whose status is `SizeMismatch`.
    pub show_mismatches: bool,
    /// Show groups whose status is `OnlyA`.
    pub show_only_a: bool,
    /// Show groups whose status is `OnlyB`.
    pub show_only_b: bool,
    /// Show only groups that hold duplicates.
    pub show_dups_only: bool,
    /// Text that shown group names must contain (ignoring case).
    pub search: String,
}

/// The group holds more than one copy on some side.
pub open spec fn group_has_duplicates(g: FileGroup) -> bool {
    active(g.in_a@).len() > 1 || active(g.in_b@).len() > 1
}

/// How many groups of `gs` have the status `st`.
pub open spec fn count_status(gs: Seq<FileGroup>, st: GroupStatus) -> nat
    decreases gs.len(),
{
    if gs.len() == 0 {
        0
    } else {
        count_status(gs.drop_last(), st) + if group_status(gs.last()) == st {
            1nat
        } else {
            0nat
        }
    }
}

/// How many groups of `gs` hold duplicates.
pub open spec fn count_duplicates(gs: Seq<FileGroup>) -> nat
    decreases gs.len(),
{
    if gs.len() == 0 {
        0
    } else {
        count_duplicates(gs.drop_last()) + if group_has_duplicates(gs.last()) {
            1nat
        } else {
            0nat
        }
    }
}

/// The numbers shown in the status bar: groups that match, that differ in
/// size, that are only in A, only in B, and that hold duplicates.
pub open spec fn summary_of(gs: Seq<FileGroup>) -> (nat, nat, nat, nat, nat) {
    (
        count_status(gs, GroupStatus::Match),
        count_status(gs, GroupStatus::SizeMismatch),
        count_status(gs, GroupStatus::OnlyA),
        count_status(gs, GroupStatus::OnlyB),
        count_duplicates(gs),
    )
}

/// Whether the status filter of `app` lets groups of status `st` through.
pub open spec fn status_shown(app: App, st: GroupStatus) -> bool {
    match st {
        GroupStatus::Match => app.show_matches,
        GroupStatus::SizeMismatch => app.show_mismatches,
        GroupStatus::OnlyA => app.show_only_a,
        GroupStatus::OnlyB => app.show_only_b,
    }
}

/// Whether the filters of `app` show the group `g`, for the lower-cased
/// search text `key`.
pub open spec fn shows(app: App, g: FileGroup, key: Seq<char>) -> bool {
    &&& status_shown(app, group_status(g))
    &&& !app.show_dups_only || group_has_duplicates(g)
    &&& key.len() == 0 || bytes_contain(encode_utf8(lowercase(g.name@)), encode_utf8(key))
}

/// The settings of `x` and `y` (roots, filters, search) are the same.
pub open spec fn same_settings(x: App, y: App) -> bool {
    &&& x.dir_a == y.dir_a
    &&& x.dir_b == y.dir_b
    &&& x.show_matches == y.show_matches
    &&& x.show_mismatches == y.show_mismatches
    &&& x.show_only_a == y.show_only_a
    &&& x.show_only_b == y.show_only_b
    &&& x.show_dups_only == y.show_dups_only
    &&& x.search == y.search
}

/// The occurrence `oi` of side A (when `is_a`) or B of `g` may be deleted:
/// it exists, is not deleted yet, and its side holds another copy.
pub open spec fn deletable(g: FileGroup, is_a: bool, oi: int) -> bool {
    let side = if is_a {
        g.in_a@
    } else {
        g.in_b@
    };
    &&& 0 <= oi < side.len()
    &&& !side[oi].deleted
    &&& active(side).len() > 1
}

/// The message shown when a directory to compare is not one.
pub open spec fn not_a_directory(dir: Seq<char>) -> Seq<char> {
    "Not a directory: "@ + dir
}

/// The message shown when removing a file failed.
pub open spec fn delete_failed(path: Seq<char>, reason: Seq<char>) -> Seq<char> {
    "Delete failed \u{2014} "@ + path + ": "@ + reason
}

/// Counts of groups never exceed the number of groups.
proof fn lemma_counts_bounded(gs: Seq<FileGroup>, st: GroupStatus)
    ensures
        count_status(gs, st) <= gs.len(),
        count_duplicates(gs) <= gs.len(),
    decreases gs.len(),
{
    if gs.len() > 0 {
        lemma_counts_bounded(gs.drop_last(), st);
    }
}

/// The counts of the summary are the numbers of groups of each status, and
/// of groups with more than one copy on side A or on side B.
pub proof fn lemma_counts_are_filters(gs: Seq<FileGroup>)
    ensures
        count_status(gs, GroupStatus::Match) == gs.filter(
            |g: FileGroup| group_status(g) == GroupStatus::Match,
        ).len(),
        count_status(gs, GroupStatus::SizeMismatch) == gs.filter(
            |g: FileGroup| group_status(g) == GroupStatus::SizeMismatch,
        ).len(),
        count_status(gs, GroupStatus::OnlyA) == gs.filter(
            |g: FileGroup| group_status(g) == GroupStatus::OnlyA,
        ).len(),
        count_status(gs, GroupStatus::OnlyB) == gs.filter(
            |g: FileGroup| group_status(g) == GroupStatus::OnlyB,
        ).len(),
        count_duplicates(gs) == gs.filter(
            |g: FileGroup| active(g.in_a@).len() > 1 || active(g.in_b@).len() > 1,
        ).len(),
    decreases gs.len(),
{
    reveal_with_fuel(Seq::<_>::filter, 1);
    if gs.len() > 0 {
        lemma_counts_are_filters(gs.drop_last());
    }
}

/// A group is hidden when the checkbox of its own status is unset, when only
/// duplicates are asked for and it holds none, or when its lower-cased name
/// does not contain a non-empty search text; it is shown when the checkbox of
/// its status is set, duplicates are not asked for and the search is empty.
pub proof fn lemma_shows_follows_checkboxes(app: App, g: FileGroup, key: Seq<char>)
    ensures
        group_status(g) == GroupStatus::Match && !app.show_matches ==> !shows(app, g, key),
        group_status(g) == GroupStatus::SizeMismatch && !app.show_mismatches ==> !shows(app, g, key),
        group_status(g) == GroupStatus::OnlyA && !app.show_only_a ==> !shows(app, g, key),
        group_status(g) == GroupStatus::OnlyB && !app.show_only_b ==> !shows(app, g, key),
        app.show_dups_only && active(g.in_a@).len() <= 1 && active(g.in_b@).len() <= 1 ==> !shows(
            app,
            g,
            key,
        ),
        key.len() > 0 && !bytes_contain(encode_utf8(lowercase(g.name@)), encode_utf8(key)) ==> !shows(
            app,
            g,
            key,
        ),
        !app.show_dups_only && key.len() == 0 ==> {
            &&& group_status(g) == GroupStatus::Match && app.show_matches ==> shows(app, g, key)
            &&& group_status(g) == GroupStatus::SizeMismatch && app.show_mismatches ==> shows(app, g, key)
            &&& group_status(g) == GroupStatus::OnlyA && app.show_only_a ==> shows(app, g, key)
            &&& group_status(g) == GroupStatus::OnlyB && app.show_only_b ==> shows(app, g, key)
        },
{
}

/// Whether a copy is offered for removal depends only on its own side: it
/// must exist, not be deleted yet, and have another copy on that side.
pub proof fn lemma_deletable_own_side(g: FileGroup, is_a: bool, oi: int)
    ensures
        is_a ==> (deletable(g, is_a, oi) <==> (0 <= oi < g.in_a@.len() && !g.in_a@[oi].deleted
            && active(g.in_a@).len() > 1)),
        !is_a ==> (deletable(g, is_a, oi) <==> (0 <= oi < g.in_b@.len() && !g.in_b@[oi].deleted
            && active(g.in_b@).len() > 1)),
{
}

impl App {
    /// A session with no roots, no result, every status shown and no search.
    pub fn new() -> (app: Self)
        ensures
            app.dir_a@ == Seq::<char>::empty(),
            app.dir_b@ == Seq::<char>::empty(),
            app.groups@.len() == 0,
            !app.compared,
            app.error is None,
            app.show_matches,
            app.show_mismatches,
            app.show_only_a,
            app.show_only_b,
            !app.show_dups_only,
            app.search@ == Seq::<char>::empty(),
    {
        App {
            dir_a: String::new(),
            dir_b: String::new(),
            groups: Vec::new(),
            compared: false,
            error: None,
            show_matches: true,
            show_mismatches: true,
            show_only_a: true,
            show_only_b: true,
            show_dups_only: false,
            search: String::new(),
        }
    }

    /// Whether both roots are given, so that a comparison can start.
    pub fn can_compare(&self) -> (r: bool)
        ensures
            r == (self.dir_a@.len() > 0 && self.dir_b@.len() > 0),
    {
        !self.dir_a.as_str().is_empty() && !self.dir_b.as_str().is_empty()
    }

    /// Compares the two roots, given whether each is a directory and the files
    /// found under each. A root that is not a directory ends the comparison
    /// with an error and no result; otherwise the files are grouped by name.
    pub fn compare(
        &mut self,
        a_is_dir: bool,
        b_is_dir: bool,
        files_a: &Vec<FoundFile>,
        files_b: &Vec<FoundFile>,
    )
        ensures
            same_settings(*final(self), *old(self)),
            !a_is_dir ==> {
                &&& final(self).groups@.len() == 0
                &&& !final(self).compared
                &&& final(self).error matches Some(e) && e@ == not_a_directory(old(self).dir_a@)
            },
            a_is_dir && !b_is_dir ==> {
                &&& final(self).groups@.len() == 0
                &&& !final(self).compared
                &&& final(self).error matches Some(e) && e@ == not_a_directory(old(self).dir_b@)
            },
            a_is_dir && b_is_dir ==> {
                &&& is_grouping(final(self).groups@, files_a@, files_b@)
                &&& final(self).compared
                &&& final(self).error is None
            },
    {
        self.error = None;
        self.groups.clear();
        self.compared = false;
        if !a_is_dir {
            let mut msg = String::from_str("Not a directory: ");
            msg.append(self.dir_a.as_str());
            self.error = Some(msg);
            return;
        }
        if !b_is_dir {
            let mut msg = String::from_str("Not a directory: ");
            msg.append(self.dir_b.as_str());
            self.error = Some(msg);
            return;
        }
        self.groups = group_files(files_a, files_b);
        self.compared = true;
    }

    /// Counts the groups that match, differ in size, are only in A, only in
    /// B, and that hold duplicates.
    pub fn summary(&self) -> (r: (usize, usize, usize, usize, usize))
        ensures
            r.0 == summary_of(self.groups@).0,
            r.1 == summary_of(self.groups@).1,
            r.2 == summary_of(self.groups@).2,
            r.3 == summary_of(self.groups@).3,
            r.4 == summary_of(self.groups@).4,
            r.0 == self.groups@.filter(|g: FileGroup| group_status(g) == GroupStatus::Match).len(),
            r.1 == self.groups@.filter(
                |g: FileGroup| group_status(g) == GroupStatus::SizeMismatch,
            ).len(),
            r.2 == self.groups@.filter(|g: FileGroup| group_status(g) == GroupStatus::OnlyA).len(),
            r.3 == self.groups@.filter(|g: FileGroup| group_status(g) == GroupStatus::OnlyB).len(),
            r.4 == self.groups@.filter(
                |g: FileGroup| active(g.in_a@).len() > 1 || active(g.in_b@).len() > 1,
            ).len(),
    {
        proof {
            lemma_counts_are_filters(self.groups@);
        }
        let mut m: usize = 0;
        let mut mm: usize = 0;
        let mut a: usize = 0;
        let mut b: usize = 0;
        let mut d: usize = 0;
        let mut i: usize = 0;
        while i < self.groups.len()
            invariant
                i <= self.groups@.len(),
                m == count_status(self.groups@.take(i as int), GroupStatus::Match),
                mm == count_status(self.groups@.take(i as int), GroupStatus::SizeMismatch),
                a == count_status(self.groups@.take(i as int), GroupStatus::OnlyA),
                b == count_status(self.groups@.take(i as int), GroupStatus::OnlyB),
                d == count_duplicates(self.groups@.take(i as int)),
            decreases self.groups@.len() - i,
        {
            let ghost t = self.groups@.take(i as int);
            let ghost t1 = self.groups@.take(i + 1);
            proof {
                assert(t1.drop_last() =~= t);
                lemma_counts_bounded(t, GroupStatus::Match);
                lemma_counts_bounded(t, GroupStatus::SizeMismatch);
                lemma_counts_bounded(t, GroupStatus::OnlyA);
                lemma_counts_bounded(t, GroupStatus::OnlyB);
            }
            let g = &self.groups[i];
            if g.has_duplicates() {
                d = d + 1;
            }
            match g.status() {
                GroupStatus::Match => m = m + 1,
                GroupStatus::SizeMismatch => mm = mm + 1,
                GroupStatus::OnlyA => a = a + 1,
                GroupStatus::OnlyB => b = b + 1,
            }
            i = i + 1;
        }
        assert(self.groups@.take(self.groups@.len() as int) =~= self.groups@);
        (m, mm, a, b, d)
    }

    /// Drops the result of the last comparison and its error.
    pub fn clear(&mut self)
        ensures
            same_settings(*final(self), *old(self)),
            final(self).groups@.len() == 0,
            !final(self).compared,
            final(self).error is None,
    {
        self.groups.clear();
        self.compared = false;
        self.error = None;
    }

    /// The search text in lower case, as group names are matched against it.
    pub fn search_key(&self) -> (r: String)
        ensures
            r@ == lowercase(self.search@),
    {
        to_lowercase(self.search.as_str())
    }

    /// Whether the filters show `group`, given the lower-cased search text.
    pub fn shows_group(&self, group: &FileGroup, search_lower: &str) -> (r: bool)
        ensures
            r == shows(*self, *group, search_lower@),
            group_status(*group) == GroupStatus::Match && !self.show_matches ==> !r,
            group_status(*group) == GroupStatus::SizeMismatch && !self.show_mismatches ==> !r,
            group_status(*group) == GroupStatus::OnlyA && !self.show_only_a ==> !r,
            group_status(*group) == GroupStatus::OnlyB && !self.show_only_b ==> !r,
            self.show_dups_only && active(group.in_a@).len() <= 1 && active(group.in_b@).len() <= 1
                ==> !r,
            !self.show_dups_only && search_lower@.len() == 0 ==> {
                &&& group_status(*group) == GroupStatus::Match && self.show_matches ==> r
                &&& group_status(*group) == GroupStatus::SizeMismatch && self.show_mismatches ==> r
                &&& group_status(*group) == GroupStatus::OnlyA && self.show_only_a ==> r
                &&& group_status(*group) == GroupStatus::OnlyB && self.show_only_b ==> r
            },
    {
        proof {
            lemma_shows_follows_checkboxes(*self, *group, search_lower@);
        }
        let status_ok = match group.status() {
            GroupStatus::Match => self.show_matches,
            GroupStatus::SizeMismatch => self.show_mismatches,
            GroupStatus::OnlyA => self.show_only_a,
            GroupStatus::OnlyB => self.show_only_b,
        };
        if !status_ok {
            return false;
        }
        if self.show_dups_only && !group.has_duplicates() {
            return false;
        }
        if !search_lower.is_empty() {
            let name_lower = to_lowercase(group.name.as_str());
            if !str_contains(name_lower.as_str(), search_lower) {
                return false;
            }
        }
        true
    }

    /// Whether occurrence `oi` of group `gi` (side A when `is_a`, else B) is
    /// offered for removal: only copies not yet deleted, on a side that holds
    /// duplicates.
    pub fn can_delete(&self, is_a: bool, gi: usize, oi: usize) -> (r: bool)
        ensures
            r == (gi < self.groups@.len() && deletable(self.groups@[gi as int], is_a, oi as int)),
            gi >= self.groups@.len() ==> !r,
            gi < self.groups@.len() && is_a ==> (r <==> (oi < self.groups@[gi as int].in_a@.len()
                && !self.groups@[gi as int].in_a@[oi as int].deleted && active(
                self.groups@[gi as int].in_a@,
            ).len() > 1)),
            gi < self.groups@.len() && !is_a ==> (r <==> (oi < self.groups@[gi as int].in_b@.len()
                && !self.groups@[gi as int].in_b@[oi as int].deleted && active(
                self.groups@[gi as int].in_b@,
            ).len() > 1)),
    {
        proof {
            if gi < self.groups@.len() {
                lemma_deletable_own_side(self.groups@[gi as int], is_a, oi as int);
            }
        }
        if gi >= self.groups.len() {
            return false;
        }
        let g = &self.groups[gi];
        let side = if is_a {
            &g.in_a
        } else {
            &g.in_b
        };
        if oi >= side.len() || side[oi].deleted {
            return false;
        }
        if is_a {
            g.dup_in_a()
        } else {
            g.dup_in_b()
        }
    }

    /// Records that the file of occurrence `oi` of group `gi`, on side A when
    /// `is_a` and else on side B, has been removed.
    pub fn mark_deleted(&mut self, is_a: bool, gi: usize, oi: usize)
        requires
            gi < old(self).groups@.len(),
            is_a ==> oi < old(self).groups@[gi as int].in_a@.len(),
            !is_a ==> oi < old(self).groups@[gi as int].in_b@.len(),
        ensures
            same_settings(*final(self), *old(self)),
            final(self).compared == old(self).compared,
            final(self).error == old(self).error,
            final(self).groups@.len() == old(self).groups@.len(),
            forall|p: int|
                0 <= p < old(self).groups@.len() && p != gi ==> #[trigger] final(self).groups@[p]
                    == old(self).groups@[p],
            final(self).groups@[gi as int].name == old(self).groups@[gi as int].name,
            is_a ==> {
                &&& final(self).groups@[gi as int].in_a@ == old(self).groups@[gi as int].in_a@.update(
                    oi as int,
                    deleted_copy(old(self).groups@[gi as int].in_a@[oi as int]),
                )
                &&& final(self).groups@[gi as int].in_b@ == old(self).groups@[gi as int].in_b@
            },
            !is_a ==> {
                &&& final(self).groups@[gi as int].in_b@ == old(self).groups@[gi as int].in_b@.update(
                    oi as int,
                    deleted_copy(old(self).groups@[gi as int].in_b@[oi as int]),
                )
                &&& final(self).groups@[gi as int].in_a@ == old(self).groups@[gi as int].in_a@
            },
    {
        if is_a {
            self.groups[gi].in_a[oi].deleted = true;
        } else {
            self.groups[gi].in_b[oi].deleted = true;
        }
    }

    /// Records that removing the file at `path` failed for `reason`.
    pub fn report_delete_failure(&mut self, path: &str, reason: &str)
        ensures
            same_settings(*final(self), *old(self)),
            final(self).compared == old(self).compared,
            final(self).groups == old(self).groups,
            final(self).error matches Some(e) && e@ == delete_failed(path@, reason@),
    {
        let mut msg = String::from_str("Delete failed \u{2014} ");
        msg.append(path);
        msg.append(": ");
        msg.append(reason);
        self.error = Some(msg);
    }
}

} // verus!
