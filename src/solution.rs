//! A total assignment of students to groups, kept as two parallel vectors.

use crate::ids::{GroupId, StudentId};
use vstd::prelude::*;

verus! {

/// Maps each student of `students` to the group at the same position of
/// `groups`. Each student occurs at most once.
#[derive(Clone, Debug)]
pub struct Solution {
    pub students: Vec<StudentId>,
    pub groups: Vec<GroupId>,
}

/// The mathematical content of a solution: the students and, at the same
/// positions, their groups.
pub struct SolutionView {
    pub students: Seq<StudentId>,
    pub groups: Seq<GroupId>,
}

impl SolutionView {
    pub open spec fn wf(&self) -> bool {
        &&& self.students.len() == self.groups.len()
        &&& self.students.no_duplicates()
    }

    /// Every group id lies in `0..num_groups`.
    pub open spec fn in_range(&self, num_groups: nat) -> bool {
        forall|i: int| 0 <= i < self.groups.len() ==> (#[trigger] self.groups[i]).0 < num_groups
    }

    pub open spec fn has_student(&self, s: StudentId) -> bool {
        self.students.contains(s)
    }

    /// The group of `s`, for a student of the solution.
    pub open spec fn group_of(&self, s: StudentId) -> GroupId {
        self.groups[choose|i: int| 0 <= i < self.students.len() && self.students[i] == s]
    }

    /// The students among the first `n` entries that sit in group `k`, in
    /// the order of the entries.
    pub open spec fn members_upto(&self, k: usize, n: nat) -> Seq<StudentId>
        decreases n,
    {
        if n == 0 {
            Seq::empty()
        } else {
            let rest = self.members_upto(k, (n - 1) as nat);
            if self.groups[n - 1] == GroupId(k) {
                rest.push(self.students[n - 1])
            } else {
                rest
            }
        }
    }

    /// The positions among the first `n` entries whose student sits in
    /// group `k`, in increasing order.
    pub open spec fn positions_upto(&self, k: usize, n: nat) -> Seq<int>
        decreases n,
    {
        if n == 0 {
            Seq::empty()
        } else {
            let rest = self.positions_upto(k, (n - 1) as nat);
            if self.groups[n - 1] == GroupId(k) {
                rest.push(n - 1)
            } else {
                rest
            }
        }
    }

    /// The positions of the entries of group `k`, in increasing order.
    pub open spec fn positions(&self, k: usize) -> Seq<int> {
        self.positions_upto(k, self.students.len() as nat)
    }

    pub proof fn lemma_positions_upto(&self, k: usize, n: nat)
        ensures
            self.positions_upto(k, n).len() == self.members_upto(k, n).len(),
            forall|t: int|
                0 <= t < self.positions_upto(k, n).len() ==> 0 <= #[trigger] self.positions_upto(k, n)[t] < n
                    && self.groups[self.positions_upto(k, n)[t]] == GroupId(k),
            forall|a: int, b: int|
                0 <= a < b < self.positions_upto(k, n).len() ==> #[trigger] self.positions_upto(k, n)[a]
                    < #[trigger] self.positions_upto(k, n)[b],
        decreases n,
    {
        if n > 0 {
            self.lemma_positions_upto(k, (n - 1) as nat);
        }
    }

    /// The students of group `k`, in the order of the entries.
    pub open spec fn members(&self, k: usize) -> Seq<StudentId> {
        self.members_upto(k, self.students.len() as nat)
    }

    /// The number of students in group `k`.
    pub open spec fn size(&self, k: usize) -> nat {
        self.members(k).len()
    }

    /// The occupancy of each of the groups `0..num_groups`.
    pub open spec fn sizes(&self, num_groups: nat) -> Seq<int> {
        Seq::new(num_groups, |k: int| self.size(k as usize) as int)
    }

    /// A student at entry `i` makes its group non-empty.
    pub proof fn lemma_member_present(&self, k: usize, n: nat, i: int)
        requires
            0 <= i < n <= self.groups.len(),
            self.groups[i] == GroupId(k),
        ensures
            self.members_upto(k, n).len() > 0,
        decreases n,
    {
        if i < n - 1 {
            self.lemma_member_present(k, (n - 1) as nat, i);
        }
    }

    pub proof fn lemma_members_upto_len(&self, k: usize, n: nat)
        ensures
            self.members_upto(k, n).len() <= n,
        decreases n,
    {
        if n > 0 {
            self.lemma_members_upto_len(k, (n - 1) as nat);
        }
    }

    /// A student is among the first `n` members of group `k` exactly when
    /// one of the first `n` entries places it there.
    pub proof fn lemma_members_upto_contains(&self, k: usize, n: nat, s: StudentId)
        requires
            n <= self.students.len(),
            n <= self.groups.len(),
        ensures
            self.members_upto(k, n).contains(s) <==> exists|i: int|
                0 <= i < n && self.students[i] == s && self.groups[i] == GroupId(k),
        decreases n,
    {
        if n > 0 {
            let m = (n - 1) as nat;
            self.lemma_members_upto_contains(k, m, s);
            vstd::seq_lib::lemma_seq_contains_after_push(self.members_upto(k, m), self.students[m as int], s);
            if exists|i: int| 0 <= i < n && self.students[i] == s && self.groups[i] == GroupId(k) {
                let i = choose|i: int| 0 <= i < n && self.students[i] == s && self.groups[i] == GroupId(k);
                if i < m {
                    assert(exists|j: int| 0 <= j < m && self.students[j] == s && self.groups[j] == GroupId(k));
                }
            }
        }
    }

    /// The members of a group are distinct.
    pub proof fn lemma_members_upto_distinct(&self, k: usize, n: nat)
        requires
            self.wf(),
            n <= self.students.len(),
        ensures
            self.members_upto(k, n).no_duplicates(),
        decreases n,
    {
        if n > 0 {
            let m = (n - 1) as nat;
            self.lemma_members_upto_distinct(k, m);
            let x = self.students[m as int];
            self.lemma_members_upto_contains(k, m, x);
            let prev = self.members_upto(k, m);
            if self.groups[m as int] == GroupId(k) {
                assert(!prev.contains(x));
                let next = prev.push(x);
                assert forall|i: int, j: int| 0 <= i < j < next.len() implies next[i] != next[j] by {
                    if j == prev.len() {
                        assert(prev.contains(next[i]) ==> next[i] != x);
                        assert(prev[i] == next[i]);
                    } else {
                        assert(next[i] == prev[i] && next[j] == prev[j]);
                    }
                }
            }
        }
    }

    /// The entry of a student is the one `group_of` reads.
    pub proof fn lemma_group_of(&self, i: int)
        requires
            self.wf(),
            0 <= i < self.students.len(),
        ensures
            self.group_of(self.students[i]) == self.groups[i],
    {
        let s = self.students[i];
        let j = choose|j: int| 0 <= j < self.students.len() && self.students[j] == s;
        assert(0 <= j < self.students.len() && self.students[j] == s);
    }

}

impl View for Solution {
    type V = SolutionView;

    open spec fn view(&self) -> SolutionView {
        SolutionView { students: self.students@, groups: self.groups@ }
    }
}

impl Solution {
    /// The empty solution.
    pub fn new() -> (r: Solution)
        ensures
            r@.wf(),
            r.students@.len() == 0,
    {
        Solution { students: Vec::new(), groups: Vec::new() }
    }

    /// A copy with the same entries.
    pub fn duplicate(&self) -> (r: Solution)
        ensures
            r.students@ == self.students@,
            r.groups@ == self.groups@,
    {
        let students = self.students.clone();
        let groups = self.groups.clone();
        assert(students@ =~= self.students@);
        assert(groups@ =~= self.groups@);
        Solution { students, groups }
    }

    /// The number of students.
    pub fn len(&self) -> (r: usize)
        ensures
            r == self.students.len(),
    {
        self.students.len()
    }

    /// The position of `s` among the entries, if it has one.
    pub fn find(&self, s: StudentId) -> (r: Option<usize>)
        requires
            self@.wf(),
        ensures
            match r {
                Some(i) => i < self.students.len() && self.students@[i as int] == s,
                None => !self@.has_student(s),
            },
    {
        let mut i: usize = 0;
        while i < self.students.len()
            invariant
                i <= self.students.len(),
                forall|j: int| 0 <= j < i ==> self.students@[j] != s,
            decreases self.students.len() - i,
        {
            if self.students[i] == s {
                return Some(i);
            }
            i = i + 1;
        }
        None
    }

    /// The group of `s`, or `None` for a student outside the solution.
    pub fn get(&self, s: StudentId) -> (r: Option<GroupId>)
        requires
            self@.wf(),
        ensures
            r == (if self@.has_student(s) {
                Some(self@.group_of(s))
            } else {
                None::<GroupId>
            }),
    {
        match self.find(s) {
            Some(i) => {
                proof {
                    self@.lemma_group_of(i as int);
                }
                Some(self.groups[i])
            },
            None => None,
        }
    }

    /// Places `s` in group `g`: a student already present moves, a new one is
    /// added at the end. Returns the group it left, if any.
    pub fn insert(&mut self, s: StudentId, g: GroupId) -> (r: Option<GroupId>)
        requires
            old(self)@.wf(),
        ensures
            final(self)@.wf(),
            old(self)@.has_student(s) ==> {
                &&& r == Some(old(self)@.group_of(s))
                &&& final(self).students@ == old(self).students@
                &&& final(self).groups@ == old(self).groups@.update(
                    old(self).students@.index_of(s),
                    g,
                )
            },
            !old(self)@.has_student(s) ==> {
                &&& r.is_none()
                &&& final(self).students@ == old(self).students@.push(s)
                &&& final(self).groups@ == old(self).groups@.push(g)
            },
    {
        match self.find(s) {
            Some(i) => {
                proof {
                    self@.lemma_group_of(i as int);
                    assert(self.students@.index_of(s) == i) by {
                        let j = self.students@.index_of(s);
                        assert(self.students@[j] == s);
                    }
                }
                let prev = self.groups[i];
                self.groups.set(i, g);
                Some(prev)
            },
            None => {
                self.students.push(s);
                self.groups.push(g);
                None
            },
        }
    }
}

/// The occupancy of each group: entry `k` counts the students in group `k`.
pub fn group_sizes(solution: &Solution, num_groups: usize) -> (r: Vec<usize>)
    requires
        solution@.wf(),
        solution@.in_range(num_groups as nat),
    ensures
        r.len() == num_groups,
        forall|k: int| 0 <= k < num_groups ==> r@[k] == solution@.size(k as usize),
{
    let mut sizes: Vec<usize> = Vec::new();
    let mut k: usize = 0;
    while k < num_groups
        invariant
            k <= num_groups,
            sizes.len() == k,
            forall|j: int| 0 <= j < k ==> sizes@[j] == 0,
        decreases num_groups - k,
    {
        sizes.push(0);
        k = k + 1;
    }
    let n = solution.students.len();
    let mut i: usize = 0;
    while i < n
        invariant
            i <= n,
            n == solution.students.len(),
            solution@.wf(),
            solution@.in_range(num_groups as nat),
            sizes.len() == num_groups,
            forall|j: int|
                0 <= j < num_groups ==> sizes@[j] == solution@.members_upto(j as usize, i as nat).len(),
        decreases n - i,
    {
        let g = solution.groups[i].0;
        assert(g < num_groups);
        proof {
            solution@.lemma_members_upto_len(g, i as nat);
        }
        sizes[g] = sizes[g] + 1;
        i = i + 1;
    }
    sizes
}

/// The entries whose student sits in group `k`, in increasing order.
pub fn member_positions(solution: &Solution, k: usize) -> (r: Vec<usize>)
    requires
        solution@.wf(),
    ensures
        r.len() == solution@.size(k),
        r.len() == solution@.positions(k).len(),
        forall|t: int| 0 <= t < r.len() ==> r@[t] as int == #[trigger] solution@.positions(k)[t],
        forall|t: int|
            0 <= t < r.len() ==> r@[t] < solution.groups.len() && solution.groups@[r@[t] as int]
                == GroupId(k),
        forall|a: int, b: int| 0 <= a < b < r.len() ==> #[trigger] r@[a] < #[trigger] r@[b],
{
    let n = solution.students.len();
    let mut positions: Vec<usize> = Vec::new();
    let mut i: usize = 0;
    proof {
        solution@.lemma_positions_upto(k, n as nat);
    }
    while i < n
        invariant
            i <= n,
            n == solution.students.len(),
            solution@.wf(),
            positions.len() == solution@.positions_upto(k, i as nat).len(),
            forall|t: int|
                0 <= t < positions.len() ==> positions@[t] as int == #[trigger] solution@.positions_upto(
                    k,
                    i as nat,
                )[t],
        decreases n - i,
    {
        if solution.groups[i] == GroupId(k) {
            positions.push(i);
        }
        i = i + 1;
    }
    proof {
        let ps = solution@.positions_upto(k, n as nat);
        solution@.lemma_positions_upto(k, n as nat);
        assert forall|t: int|
            0 <= t < positions.len() implies positions@[t] < solution.groups.len()
            && solution.groups@[positions@[t] as int] == GroupId(k) by {
            assert(positions@[t] as int == ps[t]);
        }
        assert forall|a: int, b: int| 0 <= a < b < positions.len() implies #[trigger] positions@[a]
            < #[trigger] positions@[b] by {
            assert(positions@[a] as int == ps[a]);
            assert(positions@[b] as int == ps[b]);
        }
    }
    positions
}

/// The students of each group `0..num_groups`, each list in entry order.
pub fn create_group_list(solution: &Solution, num_groups: usize) -> (r: Vec<Vec<StudentId>>)
    requires
        solution@.wf(),
        solution@.in_range(num_groups as nat),
    ensures
        r.len() == num_groups,
        forall|k: int| 0 <= k < num_groups ==> r@[k]@ == solution@.members(k as usize),
{
    let mut lists: Vec<Vec<StudentId>> = Vec::new();
    let mut k: usize = 0;
    while k < num_groups
        invariant
            k <= num_groups,
            lists.len() == k,
            forall|j: int| 0 <= j < k ==> lists@[j]@.len() == 0,
        decreases num_groups - k,
    {
        lists.push(Vec::new());
        k = k + 1;
    }
    let n = solution.students.len();
    let mut i: usize = 0;
    while i < n
        invariant
            i <= n,
            n == solution.students.len(),
            solution@.wf(),
            solution@.in_range(num_groups as nat),
            lists.len() == num_groups,
            forall|j: int|
                0 <= j < num_groups ==> lists@[j]@ == solution@.members_upto(j as usize, i as nat),
        decreases n - i,
    {
        let g = solution.groups[i].0;
        assert(g < num_groups);
        lists[g].push(solution.students[i]);
        i = i + 1;
    }
    lists
}

} // verus!
