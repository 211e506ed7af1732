//! The reference resolver: a session-lifetime table from project source
//! path to allocated tree identifier. Re-syncing a path seen before reuses
//! the remembered identifier instead of allocating a new one, which is what
//! keeps `Reference`-typed properties resolving across incremental
//! re-syncs. A reference whose target cannot be resolved is substituted
//! with the explicit unset reference rather than failing the whole patch.

use vstd::prelude::*;
use crate::props::{assoc_get, assoc_set, assoc_wf, assoc_lookup};
use crate::variant::{InstanceId, Variant};

verus! {

/// The path-to-identifier correlation table, kept for a session's lifetime.
pub struct RefResolver {
    /// Source path to the identifier last allocated for it.
    pub paths: Vec<(String, InstanceId)>,
}

impl RefResolver {
    /// The table's keys are distinct.
    pub open spec fn wf(self) -> bool {
        assoc_wf(self.paths@)
    }

    /// An empty table.
    pub fn new() -> (r: RefResolver)
        ensures
            r.wf(),
            r.paths@.len() == 0,
    {
        RefResolver { paths: Vec::new() }
    }

    /// The identifier remembered for a path, if any.
    pub fn resolve(&self, path: &String) -> (r: Option<InstanceId>)
        ensures
            r == assoc_get(self.paths@, path@),
    {
        match assoc_lookup(&self.paths, path) {
            Some(id) => Some(*id),
            None => None,
        }
    }

    /// The identifier for a path: the remembered one if the path was seen
    /// before — the table is untouched — else `fresh`, which is remembered.
    /// Repeated calls for one path therefore always yield the identifier of
    /// the first, whatever is passed as `fresh` later.
    pub fn get_or_insert(&mut self, path: &String, fresh: InstanceId) -> (r: InstanceId)
        requires
            old(self).wf(),
        ensures
            final(self).wf(),
            match assoc_get(old(self).paths@, path@) {
                Some(id) => r == id && *final(self) == *old(self),
                None => r == fresh && assoc_get(final(self).paths@, path@) == Some(fresh),
            },
            forall|k: Seq<char>|
                k != path@ ==> #[trigger] assoc_get(final(self).paths@, k) == assoc_get(
                    old(self).paths@,
                    k,
                ),
    {
        match assoc_lookup(&self.paths, path) {
            Some(id) => *id,
            None => {
                assoc_set(&mut self.paths, path, fresh);
                fresh
            },
        }
    }

    /// A `Reference` property value naming the identifier remembered for a
    /// path; a path never synced (or since removed from the table) yields
    /// the explicit unset reference instead of a failure.
    pub fn resolve_reference(&self, path: &String) -> (r: Variant)
        ensures
            r == Variant::Reference(assoc_get(self.paths@, path@)),
    {
        Variant::Reference(self.resolve(path))
    }
}

} // verus!
