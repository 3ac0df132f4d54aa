//! Where a repository keeps its objects and references.

use vstd::prelude::*;

use crate::objects::raw::{DataView, RawObject, RawObjectData};
use crate::stores::{BranchSpec, BranchView, RefSpec, RefTarget, RefView, TargetView, TargetedRef};
use crate::text::{starts_with, texts};

verus! {

broadcast use vstd::string::group_string_axioms;

/// Why a store could not be read or written.
#[derive(Debug)]
pub struct StoreError {
    /// What went wrong.
    pub message: String,
}

/// The objects in a store, by their IDs.
pub type ObjectMap = Map<Seq<char>, DataView>;

/// The references in a store, and what they lead to.
pub type RefMap = Map<RefView, TargetView>;

/// A store of objects.
pub trait ObjectStore {
    /// The objects in the store.
    spec fn objects(&self) -> ObjectMap;

    /// Whether no read of the store fails.
    spec fn reliable(&self) -> bool;

    /// Whether no write to the store fails.
    spec fn accepts_writes(&self) -> bool;

    /// A store holds finitely many objects.
    proof fn objects_finite(&self)
        ensures
            self.objects().dom().finite(),
    ;

    /// Makes what the store needs to exist before it can be written to.
    fn create(&mut self) -> (r: Result<(), StoreError>)
        ensures
            final(self).objects() == old(self).objects(),
            r is Err ==> !old(self).accepts_writes(),
            old(self).accepts_writes() ==> final(self).accepts_writes(),
    ;

    /// Whether the store can be written to.
    fn _is_writeable(&self) -> bool;

    /// The IDs of the objects whose IDs start with a text.
    fn search_objects(&self, partial_object_id: &str) -> (r: Result<Vec<String>, StoreError>)
        ensures
            r matches Ok(ids) ==> forall|id: Seq<char>| #[trigger]
                texts(ids@).contains(id) <==> self.objects().contains_key(id) && starts_with(
                    id,
                    partial_object_id@,
                ),
            r is Err ==> !self.reliable(),
    ;

    /// Whether the store holds an object.
    fn has_object(&self, object_id: &str) -> (r: Result<bool, StoreError>)
        ensures
            r matches Ok(b) ==> b == self.objects().contains_key(object_id@),
            r is Err ==> !self.reliable(),
    ;

    /// Reads an object; nothing where the store does not hold it.
    fn read_raw_object_data(&self, object_id: &str) -> (r: Result<
        Option<RawObjectData>,
        StoreError,
    >)
        ensures
            match r {
                Ok(Some(data)) => self.objects().contains_key(object_id@) && data@
                    == self.objects()[object_id@],
                Ok(None) => !self.objects().contains_key(object_id@),
                Err(_) => !self.reliable(),
            },
    ;

    /// Adds an object and gives its ID; an object that has the same ID already stays as it is.
    fn write_raw_object(&mut self, obj: &RawObject) -> (r: Result<String, StoreError>)
        ensures
            r matches Ok(id) ==> id@ == obj.object_id@ && final(self).objects() == with_object(
                old(self).objects(),
                obj.object_id@,
                obj.content@,
            ),
            r is Err ==> !old(self).accepts_writes(),
            old(self).accepts_writes() ==> final(self).accepts_writes(),
    ;
}

/// Objects and one more, unless there is one with its ID already.
pub open spec fn with_object(objects: ObjectMap, id: Seq<char>, data: DataView) -> ObjectMap {
    if objects.contains_key(id) {
        objects
    } else {
        objects.insert(id, data)
    }
}

/// A store of references.
pub trait RefStore {
    /// The references in the store.
    spec fn refs(&self) -> RefMap;

    /// Whether no read of the store fails.
    spec fn reliable(&self) -> bool;

    /// Whether no write to the store fails.
    spec fn accepts_writes(&self) -> bool;

    /// Makes what the store needs to exist before it can be written to.
    fn create(&mut self) -> (r: Result<(), StoreError>)
        ensures
            final(self).refs() == old(self).refs(),
            r is Err ==> !old(self).accepts_writes(),
            old(self).accepts_writes() ==> final(self).accepts_writes(),
    ;

    /// Whether the store holds a reference.
    fn is_existing_ref(&self, r: &RefSpec) -> (res: Result<bool, StoreError>)
        ensures
            res matches Ok(b) ==> b == self.refs().contains_key(r@),
            res is Err ==> !self.reliable(),
    ;

    /// The references and what they lead to, each once.
    fn all_ref_targets(&self) -> (r: Result<Vec<TargetedRef>, StoreError>)
        ensures
            r matches Ok(list) ==> lists_refs(list@, self.refs()),
            r is Err ==> !self.reliable(),
    ;

    /// What a reference leads to; nothing where the store does not hold it.
    fn resolve_target(&self, r: &RefSpec) -> (res: Result<Option<RefTarget>, StoreError>)
        ensures
            match res {
                Ok(Some(t)) => self.refs().contains_key(r@) && t@ == self.refs()[r@],
                Ok(None) => !self.refs().contains_key(r@),
                Err(_) => !self.reliable(),
            },
    ;

    /// The branches of remotes that have a name.
    fn search_remotes_for_branch(&self, name: &str) -> (r: Result<Vec<BranchSpec>, StoreError>)
        ensures
            r matches Ok(list) ==> forall|b: BranchView| #[trigger]
                branch_views(list@).contains(b) <==> self.refs().contains_key(RefView::Branch(b))
                    && b.location is Remote && b.name == name@,
            r is Err ==> !self.reliable(),
    ;

    /// Makes a reference lead to a target, whether or not it exists yet.
    fn create_update_ref(&mut self, r: &RefSpec, target: &RefTarget) -> (res: Result<
        (),
        StoreError,
    >)
        ensures
            res is Ok ==> final(self).refs() == old(self).refs().insert(r@, target@),
            res is Err ==> !old(self).accepts_writes(),
            old(self).accepts_writes() ==> final(self).accepts_writes(),
    ;

    /// Takes a reference out of the store, if it is there.
    fn delete_ref(&mut self, r: &RefSpec) -> (res: Result<(), StoreError>)
        ensures
            res is Ok ==> final(self).refs() == old(self).refs().remove(r@),
            res is Err ==> !old(self).accepts_writes(),
            old(self).accepts_writes() ==> final(self).accepts_writes(),
    ;
}

/// What branches are.
pub open spec fn branch_views(s: Seq<BranchSpec>) -> Seq<BranchView> {
    s.map_values(|b: BranchSpec| b@)
}

/// Whether a list holds each reference and its target, and each once.
pub open spec fn lists_refs(list: Seq<TargetedRef>, refs: RefMap) -> bool {
    &&& forall|i: int, j: int|
        0 <= i < j < list.len() ==> (#[trigger] list[i])@.spec != (#[trigger] list[j])@.spec
    &&& forall|i: int|
        0 <= i < list.len() ==> refs.contains_key((#[trigger] list[i])@.spec)
            && refs[list[i]@.spec] == list[i]@.target
    &&& forall|r: RefView| #[trigger]
        refs.contains_key(r) ==> exists|i: int| 0 <= i < list.len() && (#[trigger] list[i])@.spec == r
}

} // verus!
