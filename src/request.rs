//! The inputs of a grouping request, as typed values.

use crate::ids::{RelationshipPair, StudentId};
use vstd::prelude::*;

verus! {

/// A request to split `students` into `num_groups` groups, keeping the
/// students of each pair apart.
#[derive(Clone, Debug)]
pub struct CreateGroupsRequest {
    pub num_groups: usize,
    pub students: Vec<StudentId>,
    pub relationship_pairs: Vec<RelationshipPair>,
}

impl CreateGroupsRequest {
    /// The group count, the students and the pairs.
    pub fn into_parts(self) -> (r: (usize, Vec<StudentId>, Vec<RelationshipPair>))
        ensures
            r.0 == self.num_groups,
            r.1@ == self.students@,
            r.2@ == self.relationship_pairs@,
    {
        (self.num_groups, self.students, self.relationship_pairs)
    }
}

} // verus!
