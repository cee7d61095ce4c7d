//! Identifiers of students and groups, and the pairs of students that must
//! not share a group.

use vstd::prelude::*;

verus! {

/// A student, identified by an opaque number.
#[derive(Clone, Copy, Debug, PartialEq, Eq, Hash, Structural)]
pub struct StudentId(pub usize);

/// A group slot; within a run with `g` groups it lies in `0..g`.
#[derive(Clone, Copy, Debug, PartialEq, Eq, Hash, Structural)]
pub struct GroupId(pub usize);

impl StudentId {
    /// The number behind the identifier.
    pub fn value(&self) -> (r: usize)
        ensures
            r == self.0,
    {
        self.0
    }
}

impl GroupId {
    /// The index of the group.
    pub fn value(&self) -> (r: usize)
        ensures
            r == self.0,
    {
        self.0
    }
}

impl From<usize> for StudentId {
    fn from(id: usize) -> (r: StudentId)
        ensures
            r.0 == id,
    {
        StudentId(id)
    }
}

impl vstd::std_specs::convert::FromSpecImpl<usize> for StudentId {
    open spec fn obeys_from_spec() -> bool {
        true
    }

    open spec fn from_spec(id: usize) -> StudentId {
        StudentId(id)
    }
}

impl From<usize> for GroupId {
    fn from(id: usize) -> (r: GroupId)
        ensures
            r.0 == id,
    {
        GroupId(id)
    }
}

impl vstd::std_specs::convert::FromSpecImpl<usize> for GroupId {
    open spec fn obeys_from_spec() -> bool {
        true
    }

    open spec fn from_spec(id: usize) -> GroupId {
        GroupId(id)
    }
}

/// Two distinct students that must not be placed in the same group.
#[derive(Clone, Copy, Debug, PartialEq, Eq, Structural)]
pub struct RelationshipPair {
    pub first_student_id: StudentId,
    pub second_student_id: StudentId,
}

impl RelationshipPair {
    pub open spec fn wf(&self) -> bool {
        self.first_student_id != self.second_student_id
    }

    /// The pair of `first` and `second`, which must differ.
    pub fn new(first: StudentId, second: StudentId) -> (r: RelationshipPair)
        requires
            first != second,
        ensures
            r.first_student_id == first,
            r.second_student_id == second,
            r.wf(),
    {
        RelationshipPair { first_student_id: first, second_student_id: second }
    }

    /// Whether the pair names `a` and `b`, in either order.
    pub open spec fn links(&self, a: StudentId, b: StudentId) -> bool {
        (self.first_student_id == a && self.second_student_id == b)
            || (self.first_student_id == b && self.second_student_id == a)
    }
}

/// A student with a name.
#[derive(Clone, Debug)]
pub struct Student {
    pub id: StudentId,
    pub first_name: String,
    pub last_name: String,
}

impl Student {
    pub fn new(id: StudentId, first_name: String, last_name: String) -> (r: Student)
        ensures
            r.id == id,
            r.first_name@ == first_name@,
            r.last_name@ == last_name@,
    {
        Student { id, first_name, last_name }
    }
}

} // verus!
