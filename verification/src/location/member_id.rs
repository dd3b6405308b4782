//! Identifiers of cluster members.
use crate::datum::{Datum, Dup};
use core::marker::PhantomData;
use vstd::prelude::*;

verus! {

/// The identifier of a member of some cluster, without saying which.
#[derive(Clone, Copy, Debug, PartialEq, Eq, PartialOrd, Ord, Hash)]
pub struct TaglessMemberId {
    pub raw_id: u32,
}

/// The identifier of a member of the cluster tagged `Tag`.
#[derive(Debug, PartialEq, Eq, PartialOrd, Ord, Hash)]
pub struct MemberId<Tag> {
    pub raw_id: u32,
    pub tag: PhantomData<Tag>,
}

impl<Tag> Clone for MemberId<Tag> {
    fn clone(&self) -> (r: Self)
        ensures
            r == *self,
    {
        MemberId { raw_id: self.raw_id, tag: PhantomData }
    }
}

impl<Tag> Copy for MemberId<Tag> {

}

impl<Tag> MemberId<Tag> {
    /// The member with the given number.
    pub fn from_raw_id(raw_id: u32) -> (r: Self)
        ensures
            r.raw_id == raw_id,
    {
        MemberId { raw_id, tag: PhantomData }
    }

    /// Attaches the cluster's tag to an untagged identifier.
    pub fn from_tagless(id: TaglessMemberId) -> (r: Self)
        ensures
            r.raw_id == id.raw_id,
    {
        MemberId { raw_id: id.raw_id, tag: PhantomData }
    }

    /// The number of this member.
    pub fn get_raw_id(&self) -> (r: u32)
        ensures
            r == self.raw_id,
    {
        self.raw_id
    }
}

impl<Tag> Dup for MemberId<Tag> {
    fn dup(&self) -> (r: Self) {
        MemberId { raw_id: self.raw_id, tag: PhantomData }
    }
}

impl<Tag> Datum for MemberId<Tag> {
    fn same(&self, other: &Self) -> (b: bool) {
        self.raw_id == other.raw_id
    }
}

impl Dup for TaglessMemberId {
    fn dup(&self) -> (r: Self) {
        *self
    }
}

impl Datum for TaglessMemberId {
    fn same(&self, other: &Self) -> (b: bool) {
        self.raw_id == other.raw_id
    }
}

} // verus!
