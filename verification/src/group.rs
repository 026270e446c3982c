//! A group of files that share one file name across the two directories,
//! and its classification.

use vstd::prelude::*;

verus! {

/// One physical file found during the walk.
#[derive(Debug, Clone)]
pub struct Occurrence {
    /// Path relative to the compared root, with `/` as separator.
    pub rel_path: String,
    /// Size in bytes.
    pub size: u64,
    /// Set once the file has been removed from disk.
    pub deleted: bool,
}

/// All files that share the same file name across both directories.
#[derive(Debug, Clone)]
pub struct FileGroup {
    /// The shared file name.
    pub name: String,
    /// Where the name occurs under the first directory, in walk order.
    pub in_a: Vec<Occurrence>,
    /// Where the name occurs under the second directory, in walk order.
    pub in_b: Vec<Occurrence>,
}

/// How the two sides of a group compare.
#[derive(Debug, Clone, Copy, PartialEq, Eq, Structural)]
pub enum GroupStatus {
    /// Present on both sides with one size, or deleted everywhere.
    Match,
    /// Present on both sides with more than one size.
    SizeMismatch,
    /// Present only under the first directory.
    OnlyA,
    /// Present only under the second directory.
    OnlyB,
}

/// The occurrences of `s` that are not deleted, in order.
pub open spec fn active(s: Seq<Occurrence>) -> Seq<Occurrence>
    decreases s.len(),
{
    if s.len() == 0 {
        Seq::empty()
    } else {
        let rest = active(s.drop_last());
        if s.last().deleted {
            rest
        } else {
            rest.push(s.last())
        }
    }
}

/// The occurrence `o` marked as deleted.
pub open spec fn deleted_copy(o: Occurrence) -> Occurrence {
    Occurrence { rel_path: o.rel_path, size: o.size, deleted: true }
}

/// Every occurrence of `s` that is not deleted has size `z`.
pub open spec fn all_active_sized(s: Seq<Occurrence>, z: u64) -> bool {
    forall|i: int| 0 <= i < s.len() && !s[i].deleted ==> s[i].size == z
}

/// One size is shared by every occurrence that is not deleted, on both sides.
pub open spec fn sizes_agree(g: FileGroup) -> bool {
    exists|z: u64| all_active_sized(g.in_a@, z) && all_active_sized(g.in_b@, z)
}

/// The status of a group.
pub open spec fn group_status(g: FileGroup) -> GroupStatus {
    let has_a = active(g.in_a@).len() > 0;
    let has_b = active(g.in_b@).len() > 0;
    if has_a && !has_b {
        GroupStatus::OnlyA
    } else if !has_a && has_b {
        GroupStatus::OnlyB
    } else if !has_a && !has_b {
        GroupStatus::Match
    } else if sizes_agree(g) {
        GroupStatus::Match
    } else {
        GroupStatus::SizeMismatch
    }
}

/// The largest size among the occurrences that are not deleted (0 if none).
pub open spec fn max_active_size(s: Seq<Occurrence>) -> u64
    decreases s.len(),
{
    if s.len() == 0 {
        0
    } else {
        let m = max_active_size(s.drop_last());
        if s.last().deleted || s.last().size <= m {
            m
        } else {
            s.last().size
        }
    }
}

/// The difference of two sizes, without sign.
pub open spec fn size_gap(x: u64, y: u64) -> u64 {
    if x >= y {
        (x - y) as u64
    } else {
        (y - x) as u64
    }
}

/// What is said of a size mismatch: the largest size on each side and their gap.
pub open spec fn discrepancy(g: FileGroup) -> Option<(u64, u64, u64)> {
    if group_status(g) == GroupStatus::SizeMismatch {
        let ma = max_active_size(g.in_a@);
        let mb = max_active_size(g.in_b@);
        Some((ma, mb, size_gap(ma, mb)))
    } else {
        None
    }
}

/// There are no occurrences left exactly when every occurrence is deleted.
pub proof fn lemma_active_empty(s: Seq<Occurrence>)
    ensures
        active(s).len() == 0 <==> (forall|i: int| 0 <= i < s.len() ==> s[i].deleted),
        active(s).len() <= s.len(),
    decreases s.len(),
{
    if s.len() > 0 {
        lemma_active_empty(s.drop_last());
        if active(s).len() == 0 {
            assert forall|i: int| 0 <= i < s.len() implies s[i].deleted by {
                if i < s.len() - 1 {
                    assert(s.drop_last()[i] == s[i]);
                }
            }
        }
        if (forall|i: int| 0 <= i < s.len() ==> s[i].deleted) {
            assert forall|i: int| 0 <= i < s.drop_last().len() implies s.drop_last()[i].deleted by {
                assert(s.drop_last()[i] == s[i]);
            }
            assert(s[s.len() - 1].deleted);
        }
    }
}

/// Some occurrence of `s` is not deleted.
pub open spec fn some_present(s: Seq<Occurrence>) -> bool {
    exists|i: int| 0 <= i < s.len() && !s[i].deleted
}

/// Two different occurrences of `s` are not deleted.
pub open spec fn two_present(s: Seq<Occurrence>) -> bool {
    exists|i: int, j: int| 0 <= i < j < s.len() && !s[i].deleted && !s[j].deleted
}

/// Every copy left on side `a` has the size of every copy left on side `b`.
pub open spec fn pairwise_same_size(a: Seq<Occurrence>, b: Seq<Occurrence>) -> bool {
    forall|i: int, j: int|
        0 <= i < a.len() && 0 <= j < b.len() && !a[i].deleted && !b[j].deleted ==> #[trigger] a[i].size
            == #[trigger] b[j].size
}

/// With copies on both sides, one size is shared by all copies exactly when
/// every copy on one side has the size of every copy on the other.
pub proof fn lemma_sizes_agree_pairwise(g: FileGroup)
    requires
        some_present(g.in_a@),
        some_present(g.in_b@),
    ensures
        sizes_agree(g) <==> pairwise_same_size(g.in_a@, g.in_b@),
{
    let a = g.in_a@;
    let b = g.in_b@;
    if sizes_agree(g) {
        let z = choose|z: u64| all_active_sized(a, z) && all_active_sized(b, z);
        assert forall|i: int, j: int|
            0 <= i < a.len() && 0 <= j < b.len() && !a[i].deleted && !b[j].deleted implies #[trigger] a[i].size
            == #[trigger] b[j].size by {
            assert(a[i].size == z);
            assert(b[j].size == z);
        }
    }
    if pairwise_same_size(a, b) {
        let i0 = choose|i: int| 0 <= i < a.len() && !a[i].deleted;
        let j0 = choose|j: int| 0 <= j < b.len() && !b[j].deleted;
        let z = b[j0].size;
        assert forall|i: int| 0 <= i < a.len() && !a[i].deleted implies a[i].size == z by {
            assert(a[i].size == b[j0].size);
        }
        assert forall|j: int| 0 <= j < b.len() && !b[j].deleted implies b[j].size == z by {
            assert(a[i0].size == b[j].size);
            assert(a[i0].size == b[j0].size);
        }
        assert(all_active_sized(a, z) && all_active_sized(b, z));
    }
}

/// More than one copy is left exactly when two different occurrences are not
/// deleted, and some copy is left exactly when one occurrence is not deleted.
pub proof fn lemma_active_counts(s: Seq<Occurrence>)
    ensures
        active(s).len() > 0 <==> some_present(s),
        active(s).len() > 1 <==> two_present(s),
    decreases s.len(),
{
    lemma_active_empty(s);
    if s.len() > 0 {
        let t = s.drop_last();
        lemma_active_counts(t);
        let last = s.len() - 1;
        if two_present(s) {
            let (i, j) = choose|i: int, j: int|
                0 <= i < j < s.len() && !s[i].deleted && !s[j].deleted;
            assert(t[i] == s[i]);
            if j < last {
                assert(t[j] == s[j]);
                assert(two_present(t));
            } else {
                assert(some_present(t));
            }
        }
        if active(s).len() > 1 {
            if s[last].deleted {
                let (i, j) = choose|i: int, j: int|
                    0 <= i < j < t.len() && !t[i].deleted && !t[j].deleted;
                assert(s[i] == t[i] && s[j] == t[j]);
            } else {
                let i = choose|i: int| 0 <= i < t.len() && !t[i].deleted;
                assert(s[i] == t[i]);
                assert(!s[last].deleted);
            }
        }
    }
}

/// The occurrences left of a prefix extend by the next occurrence when it is not deleted.
proof fn lemma_active_take(s: Seq<Occurrence>, i: int)
    requires
        0 <= i < s.len(),
    ensures
        active(s.take(i + 1)) == if s[i].deleted {
            active(s.take(i))
        } else {
            active(s.take(i)).push(s[i])
        },
{
    assert(s.take(i + 1).drop_last() =~= s.take(i));
}

/// Counts the occurrences that are not deleted.
pub fn count_active(v: &Vec<Occurrence>) -> (n: usize)
    ensures
        n == active(v@).len(),
{
    let mut n: usize = 0;
    let mut i: usize = 0;
    while i < v.len()
        invariant
            i <= v@.len(),
            n == active(v@.take(i as int)).len(),
            n <= i,
        decreases v@.len() - i,
    {
        proof {
            lemma_active_take(v@, i as int);
        }
        if !v[i].deleted {
            n = n + 1;
        }
        i = i + 1;
    }
    assert(v@.take(v@.len() as int) =~= v@);
    n
}

/// The position of the first occurrence that is not deleted, if any.
fn first_active(v: &Vec<Occurrence>) -> (r: Option<usize>)
    ensures
        match r {
            Some(i) => i < v@.len() && !v@[i as int].deleted,
            None => forall|i: int| 0 <= i < v@.len() ==> v@[i].deleted,
        },
{
    let mut i: usize = 0;
    while i < v.len()
        invariant
            i <= v@.len(),
            forall|k: int| 0 <= k < i ==> v@[k].deleted,
        decreases v@.len() - i,
    {
        if !v[i].deleted {
            return Some(i);
        }
        i = i + 1;
    }
    None
}

/// Whether every occurrence that is not deleted has size `z`.
fn check_active_sized(v: &Vec<Occurrence>, z: u64) -> (r: bool)
    ensures
        r == all_active_sized(v@, z),
{
    let mut i: usize = 0;
    while i < v.len()
        invariant
            i <= v@.len(),
            forall|k: int| 0 <= k < i && !v@[k].deleted ==> v@[k].size == z,
        decreases v@.len() - i,
    {
        if !v[i].deleted && v[i].size != z {
            return false;
        }
        i = i + 1;
    }
    true
}

/// The largest size among the occurrences of `s` that are not deleted is at
/// least the size of each of them, and is the size of one of them when there
/// is one.
pub proof fn lemma_max_active_size_is_max(s: Seq<Occurrence>)
    ensures
        forall|i: int|
            0 <= i < s.len() && !s[i].deleted ==> #[trigger] s[i].size <= max_active_size(s),
        (exists|i: int| 0 <= i < s.len() && !s[i].deleted) ==> exists|j: int|
            0 <= j < s.len() && !s[j].deleted && s[j].size == max_active_size(s),
        (forall|i: int| 0 <= i < s.len() ==> s[i].deleted) ==> max_active_size(s) == 0,
    decreases s.len(),
{
    if s.len() > 0 {
        let t = s.drop_last();
        lemma_max_active_size_is_max(t);
        if forall|i: int| 0 <= i < s.len() ==> s[i].deleted {
            assert forall|k: int| 0 <= k < t.len() implies t[k].deleted by {
                assert(t[k] == s[k]);
            }
            assert(s[s.len() - 1].deleted);
        }
        assert forall|i: int| 0 <= i < s.len() && !s[i].deleted implies #[trigger] s[i].size
            <= max_active_size(s) by {
            if i < s.len() - 1 {
                assert(t[i] == s[i]);
            }
        }
        if exists|i: int| 0 <= i < s.len() && !s[i].deleted {
            let i = choose|i: int| 0 <= i < s.len() && !s[i].deleted;
            if max_active_size(s) == s.last().size && !s.last().deleted {
                assert(s[s.len() - 1].size == max_active_size(s));
            } else if exists|k: int| 0 <= k < t.len() && !t[k].deleted {
                let j = choose|j: int| 0 <= j < t.len() && !t[j].deleted && t[j].size == max_active_size(t);
                assert(s[j] == t[j]);
            } else {
                assert(forall|k: int| 0 <= k < t.len() ==> t[k].deleted);
                assert(max_active_size(t) == 0);
                if i < s.len() - 1 {
                    assert(t[i] == s[i]);
                }
                assert(!s.last().deleted);
                assert(s[s.len() - 1].size == max_active_size(s));
            }
        }
    }
}

/// The largest size among the occurrences that are not deleted.
fn max_size(v: &Vec<Occurrence>) -> (m: u64)
    ensures
        m == max_active_size(v@),
        forall|i: int| 0 <= i < v@.len() && !v@[i].deleted ==> #[trigger] v@[i].size <= m,
        (exists|i: int| 0 <= i < v@.len() && !v@[i].deleted) ==> exists|j: int|
            0 <= j < v@.len() && !v@[j].deleted && v@[j].size == m,
{
    proof {
        lemma_max_active_size_is_max(v@);
    }
    let mut m: u64 = 0;
    let mut i: usize = 0;
    while i < v.len()
        invariant
            i <= v@.len(),
            m == max_active_size(v@.take(i as int)),
        decreases v@.len() - i,
    {
        assert(v@.take(i + 1).drop_last() =~= v@.take(i as int));
        if !v[i].deleted && v[i].size > m {
            m = v[i].size;
        }
        i = i + 1;
    }
    assert(v@.take(v@.len() as int) =~= v@);
    m
}

/// References to the occurrences of `v` that are not deleted, in order.
fn active_refs(v: &Vec<Occurrence>) -> (r: Vec<&Occurrence>)
    ensures
        r@.len() == active(v@).len(),
        forall|k: int| 0 <= k < r@.len() ==> *r@[k] == active(v@)[k],
{
    let mut r: Vec<&Occurrence> = Vec::new();
    let mut i: usize = 0;
    while i < v.len()
        invariant
            i <= v@.len(),
            r@.len() == active(v@.take(i as int)).len(),
            forall|k: int| 0 <= k < r@.len() ==> *r@[k] == active(v@.take(i as int))[k],
        decreases v@.len() - i,
    {
        proof {
            lemma_active_take(v@, i as int);
        }
        if !v[i].deleted {
            r.push(&v[i]);
        }
        i = i + 1;
    }
    assert(v@.take(v@.len() as int) =~= v@);
    r
}

impl FileGroup {
    /// The occurrences under the first directory that are not deleted.
    pub fn active_a(&self) -> (r: Vec<&Occurrence>)
        ensures
            r@.len() == active(self.in_a@).len(),
            forall|k: int| 0 <= k < r@.len() ==> *r@[k] == active(self.in_a@)[k],
            forall|k: int|
                0 <= k < r@.len() ==> !(#[trigger] r@[k]).deleted && self.in_a@.contains(*r@[k]),
            forall|i: int|
                0 <= i < self.in_a@.len() && !self.in_a@[i].deleted ==> exists|k: int|
                    0 <= k < r@.len() && *r@[k] == #[trigger] self.in_a@[i],
    {
        let r = active_refs(&self.in_a);
        proof {
            let s = self.in_a@;
            crate::laws::lemma_active_members(s);
            assert forall|i: int| 0 <= i < s.len() && !s[i].deleted implies exists|k: int|
                0 <= k < r@.len() && *r@[k] == #[trigger] s[i] by {
                assert(active(s).contains(s[i]));
                let k = choose|k: int| 0 <= k < active(s).len() && active(s)[k] == s[i];
                assert(*r@[k] == active(s)[k]);
            }
        }
        r
    }

    /// The occurrences under the second directory that are not deleted.
    pub fn active_b(&self) -> (r: Vec<&Occurrence>)
        ensures
            r@.len() == active(self.in_b@).len(),
            forall|k: int| 0 <= k < r@.len() ==> *r@[k] == active(self.in_b@)[k],
            forall|k: int|
                0 <= k < r@.len() ==> !(#[trigger] r@[k]).deleted && self.in_b@.contains(*r@[k]),
            forall|i: int|
                0 <= i < self.in_b@.len() && !self.in_b@[i].deleted ==> exists|k: int|
                    0 <= k < r@.len() && *r@[k] == #[trigger] self.in_b@[i],
    {
        let r = active_refs(&self.in_b);
        proof {
            let s = self.in_b@;
            crate::laws::lemma_active_members(s);
            assert forall|i: int| 0 <= i < s.len() && !s[i].deleted implies exists|k: int|
                0 <= k < r@.len() && *r@[k] == #[trigger] s[i] by {
                assert(active(s).contains(s[i]));
                let k = choose|k: int| 0 <= k < active(s).len() && active(s)[k] == s[i];
                assert(*r@[k] == active(s)[k]);
            }
        }
        r
    }

    /// Classifies the group: present on one side only, or on both with one
    /// size or more than one.
    pub fn status(&self) -> (st: GroupStatus)
        ensures
            st == group_status(*self),
            st == GroupStatus::OnlyA <==> some_present(self.in_a@) && !some_present(self.in_b@),
            st == GroupStatus::OnlyB <==> !some_present(self.in_a@) && some_present(self.in_b@),
            !some_present(self.in_a@) && !some_present(self.in_b@) ==> st == GroupStatus::Match,
            some_present(self.in_a@) && some_present(self.in_b@) ==> (st == GroupStatus::Match
                <==> pairwise_same_size(self.in_a@, self.in_b@)),
            some_present(self.in_a@) && some_present(self.in_b@) ==> (st
                == GroupStatus::SizeMismatch || st == GroupStatus::Match),
    {
        proof {
            lemma_active_counts(self.in_a@);
            lemma_active_counts(self.in_b@);
            if some_present(self.in_a@) && some_present(self.in_b@) {
                lemma_sizes_agree_pairwise(*self);
            }
        }
        let has_a = count_active(&self.in_a) > 0;
        let has_b = count_active(&self.in_b) > 0;
        if has_a && !has_b {
            GroupStatus::OnlyA
        } else if !has_a && has_b {
            GroupStatus::OnlyB
        } else if !has_a && !has_b {
            // all deleted: treated as gone
            GroupStatus::Match
        } else {
            proof {
                lemma_active_empty(self.in_a@);
            }
            match first_active(&self.in_a) {
                Some(i) => {
                    let z = self.in_a[i].size;
                    if check_active_sized(&self.in_a, z) && check_active_sized(&self.in_b, z) {
                        GroupStatus::Match
                    } else {
                        proof {
                            if sizes_agree(*self) {
                                let w = choose|w: u64|
                                    all_active_sized(self.in_a@, w) && all_active_sized(
                                        self.in_b@,
                                        w,
                                    );
                                assert(self.in_a@[i as int].size == w);
                            }
                        }
                        GroupStatus::SizeMismatch
                    }
                },
                None => GroupStatus::Match,
            }
        }
    }

    /// True when the first directory holds more than one copy that is not deleted.
    pub fn dup_in_a(&self) -> (r: bool)
        ensures
            r == (active(self.in_a@).len() > 1),
            r == two_present(self.in_a@),
    {
        proof {
            lemma_active_counts(self.in_a@);
        }
        count_active(&self.in_a) > 1
    }

    /// True when the second directory holds more than one copy that is not deleted.
    pub fn dup_in_b(&self) -> (r: bool)
        ensures
            r == (active(self.in_b@).len() > 1),
            r == two_present(self.in_b@),
    {
        proof {
            lemma_active_counts(self.in_b@);
        }
        count_active(&self.in_b) > 1
    }

    /// True when any single directory has more than one copy that is not deleted.
    pub fn has_duplicates(&self) -> (r: bool)
        ensures
            r == (active(self.in_a@).len() > 1 || active(self.in_b@).len() > 1),
            r == (two_present(self.in_a@) || two_present(self.in_b@)),
    {
        self.dup_in_a() || self.dup_in_b()
    }

    /// Which side holds duplicates, as shown to the user: "A and B", "A", else "B".
    pub fn duplicate_sides(&self) -> (r: &'static str)
        ensures
            r@ == (if active(self.in_a@).len() > 1 && active(self.in_b@).len() > 1 {
                "A and B"@
            } else if active(self.in_a@).len() > 1 {
                "A"@
            } else {
                "B"@
            }),
    {
        let a = self.dup_in_a();
        let b = self.dup_in_b();
        if a && b {
            "A and B"
        } else if a {
            "A"
        } else {
            "B"
        }
    }

    /// For a size mismatch, the largest size on each side and the gap between them.
    pub fn size_discrepancy(&self) -> (r: Option<(u64, u64, u64)>)
        ensures
            r == discrepancy(*self),
            r is Some <==> group_status(*self) == GroupStatus::SizeMismatch,
            r matches Some((ma, mb, gap)) ==> {
                &&& forall|i: int|
                    0 <= i < self.in_a@.len() && !self.in_a@[i].deleted ==> #[trigger] self.in_a@[i].size <= ma
                &&& exists|j: int|
                    0 <= j < self.in_a@.len() && !self.in_a@[j].deleted && self.in_a@[j].size == ma
                &&& forall|i: int|
                    0 <= i < self.in_b@.len() && !self.in_b@[i].deleted ==> #[trigger] self.in_b@[i].size <= mb
                &&& exists|j: int|
                    0 <= j < self.in_b@.len() && !self.in_b@[j].deleted && self.in_b@[j].size == mb
                &&& ma >= mb ==> gap == ma - mb
                &&& mb >= ma ==> gap == mb - ma
            },
    {
        proof {
            lemma_active_empty(self.in_a@);
            lemma_active_empty(self.in_b@);
        }
        if self.status() == GroupStatus::SizeMismatch {
            let ma = max_size(&self.in_a);
            let mb = max_size(&self.in_b);
            let gap = if ma >= mb {
                ma - mb
            } else {
                mb - ma
            };
            Some((ma, mb, gap))
        } else {
            None
        }
    }
}

} // verus!
