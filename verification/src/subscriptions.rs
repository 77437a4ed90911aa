//! The files whose diagnostics are published again after every change of state.

use crate::fx_set::{set_insert, set_items, set_remove};
use crate::ids::FileId;
use rustc_hash::FxHashSet;
use vstd::prelude::*;

verus! {

/// The set of subscribed files.
pub struct Subscriptions {
    subs: FxHashSet<u32>,
}

impl View for Subscriptions {
    type V = Set<u32>;

    closed spec fn view(&self) -> Set<u32> {
        self.subs@
    }
}

impl Subscriptions {
    /// No file is subscribed.
    pub fn new() -> (subs: Subscriptions)
        ensures
            subs@ == Set::<u32>::empty(),
    {
        Subscriptions { subs: FxHashSet::default() }
    }

    /// Subscribes a file; a file that is subscribed already stays so.
    pub fn add_sub(&mut self, file_id: FileId)
        ensures
            final(self)@ == old(self)@.insert(file_id.0),
    {
        broadcast use vstd::std_specs::hash::group_hash_axioms;

        set_insert(&mut self.subs, file_id.0);
    }

    /// Ends the subscription of a file, if it has one.
    pub fn remove_sub(&mut self, file_id: FileId)
        ensures
            final(self)@ == old(self)@.remove(file_id.0),
    {
        broadcast use vstd::std_specs::hash::group_hash_axioms;

        set_remove(&mut self.subs, &file_id.0);
    }

    /// The subscribed files, each once, by value.
    pub fn subscriptions(&self) -> (files: Vec<FileId>)
        ensures
            files@.no_duplicates(),
            forall|file_id: FileId| files@.contains(file_id) <==> self@.contains(file_id.0),
    {
        broadcast use vstd::std_specs::hash::group_hash_axioms;

        let ids = set_items(&self.subs);
        let mut files: Vec<FileId> = Vec::new();
        let mut i: usize = 0;
        while i < ids.len()
            invariant
                i <= ids.len(),
                files@.len() == i,
                forall|k: int| 0 <= k < i ==> (#[trigger] files@[k]).0 == ids@[k],
            decreases ids.len() - i,
        {
            files.push(FileId(ids[i]));
            i = i + 1;
        }
        proof {
            assert forall|file_id: FileId| files@.contains(file_id) <==> self@.contains(
                file_id.0,
            ) by {
                if files@.contains(file_id) {
                    let k = choose|k: int| 0 <= k < files@.len() && files@[k] == file_id;
                    assert(ids@[k] == file_id.0);
                    assert(ids@.to_set().contains(ids@[k]));
                }
                if self@.contains(file_id.0) {
                    assert(ids@.to_set().contains(file_id.0));
                    assert(ids@.contains(file_id.0));
                    let k = choose|k: int| 0 <= k < ids@.len() && ids@[k] == file_id.0;
                    assert(files@[k] == file_id);
                }
            }
        }
        files
    }
}

} // verus!
