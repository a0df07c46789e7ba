//! A versioned store of assets: each handle has at most one staged asset and
//! at most one published asset.

use std::collections::HashMap;
use vstd::prelude::*;
use vstd::std_specs::iter::IteratorSpec;
use crate::types::LoadHandle;

verus! {

broadcast use vstd::std_specs::hash::group_hash_axioms;

/// An asset together with the version under which the store holds it.
pub struct AssetState<A> {
    pub version: u32,
    pub asset: A,
}

/// The store. Readers see only what has been published.
pub struct AssetStorage<A> {
    assets: HashMap<LoadHandle, AssetState<A>>,
    uncommitted: HashMap<LoadHandle, AssetState<A>>,
}

/// The published assets after `commit_asset(handle, version)`.
pub open spec fn committed_after_commit<A>(
    committed: Map<LoadHandle, AssetState<A>>,
    staged: Map<LoadHandle, AssetState<A>>,
    handle: LoadHandle,
    version: u32,
) -> Map<LoadHandle, AssetState<A>> {
    if staged.contains_key(handle) && staged[handle].version == version {
        committed.insert(handle, staged[handle])
    } else {
        committed
    }
}

/// The staged assets after `commit_asset(handle, version)`.
pub open spec fn staged_after_commit<A>(
    staged: Map<LoadHandle, AssetState<A>>,
    handle: LoadHandle,
    version: u32,
) -> Map<LoadHandle, AssetState<A>> {
    if staged.contains_key(handle) && staged[handle].version == version {
        staged.remove(handle)
    } else {
        staged
    }
}

/// What is left of one of the two maps after `remove_asset(handle, version)`.
pub open spec fn after_remove<A>(
    held: Map<LoadHandle, AssetState<A>>,
    handle: LoadHandle,
    version: u32,
) -> Map<LoadHandle, AssetState<A>> {
    if held.contains_key(handle) && held[handle].version == version {
        held.remove(handle)
    } else {
        held
    }
}

impl<A> Default for AssetStorage<A> {
    fn default() -> (s: Self)
        ensures
            s.committed() == Map::<LoadHandle, AssetState<A>>::empty(),
            s.staged() == Map::<LoadHandle, AssetState<A>>::empty(),
    {
        AssetStorage::new()
    }
}

impl<A> AssetStorage<A> {
    /// The published assets, by handle.
    pub closed spec fn committed(&self) -> Map<LoadHandle, AssetState<A>> {
        self.assets@
    }

    /// The assets that wait to be published, by handle.
    pub closed spec fn staged(&self) -> Map<LoadHandle, AssetState<A>> {
        self.uncommitted@
    }

    /// Both maps of a store are finite.
    pub proof fn lemma_finite(&self)
        ensures
            self.committed().dom().finite(),
            self.staged().dom().finite(),
    {
    }

    /// An empty store.
    pub fn new() -> (s: Self)
        ensures
            s.committed() == Map::<LoadHandle, AssetState<A>>::empty(),
            s.staged() == Map::<LoadHandle, AssetState<A>>::empty(),
    {
        AssetStorage { assets: HashMap::new(), uncommitted: HashMap::new() }
    }

    /// Stages `asset` for `handle` under `version`, in place of whatever was
    /// staged for that handle. What is published stays.
    pub fn update_asset(&mut self, handle: LoadHandle, asset: A, version: u32)
        ensures
            final(self).staged() == old(self).staged().insert(
                handle,
                AssetState { version, asset },
            ),
            final(self).committed() == old(self).committed(),
    {
        self.uncommitted.insert(handle, AssetState { version, asset });
    }

    /// Publishes what is staged for `handle`, if it is staged under
    /// `version`; does nothing otherwise.
    pub fn commit_asset(&mut self, handle: LoadHandle, version: u32)
        ensures
            final(self).committed() == committed_after_commit(
                old(self).committed(),
                old(self).staged(),
                handle,
                version,
            ),
            final(self).staged() == staged_after_commit(old(self).staged(), handle, version),
    {
        let staged_here = match self.uncommitted.get(&handle) {
            Some(state) => state.version == version,
            None => false,
        };
        if staged_here {
            match self.uncommitted.remove(&handle) {
                Some(state) => {
                    self.assets.insert(handle, state);
                },
                None => {},
            }
        }
    }

    /// Drops what the store holds for `handle` under `version`, staged or
    /// published.
    pub fn remove_asset(&mut self, handle: LoadHandle, version: u32)
        ensures
            final(self).committed() == after_remove(old(self).committed(), handle, version),
            final(self).staged() == after_remove(old(self).staged(), handle, version),
    {
        let staged_here = match self.uncommitted.get(&handle) {
            Some(state) => state.version == version,
            None => false,
        };
        if staged_here {
            self.uncommitted.remove(&handle);
        }
        let published_here = match self.assets.get(&handle) {
            Some(state) => state.version == version,
            None => false,
        };
        if published_here {
            self.assets.remove(&handle);
        }
    }

    /// Whether an asset is published for `handle`.
    pub fn contains(&self, handle: LoadHandle) -> (b: bool)
        ensures
            b == self.committed().contains_key(handle),
    {
        self.assets.contains_key(&handle)
    }

    /// The asset published for `handle`.
    pub fn get(&self, handle: LoadHandle) -> (asset: Option<&A>)
        ensures
            match asset {
                Some(a) => self.committed().contains_key(handle) && *a
                    == self.committed()[handle].asset,
                None => !self.committed().contains_key(handle),
            },
    {
        match self.assets.get(&handle) {
            Some(state) => Some(&state.asset),
            None => None,
        }
    }

    /// The asset published for `handle`.
    pub fn get_for_load_handle(&self, handle: LoadHandle) -> (asset: Option<&A>)
        ensures
            match asset {
                Some(a) => self.committed().contains_key(handle) && *a
                    == self.committed()[handle].asset,
                None => !self.committed().contains_key(handle),
            },
    {
        self.get(handle)
    }

    /// The version under which an asset is published for `handle`.
    pub fn get_version(&self, handle: LoadHandle) -> (version: Option<u32>)
        ensures
            match version {
                Some(v) => self.committed().contains_key(handle) && v
                    == self.committed()[handle].version,
                None => !self.committed().contains_key(handle),
            },
    {
        match self.assets.get(&handle) {
            Some(state) => Some(state.version),
            None => None,
        }
    }

    /// The asset published for `handle`, with the version under which it is
    /// published.
    pub fn get_asset_with_version(&self, handle: LoadHandle) -> (found: Option<(&A, u32)>)
        ensures
            match found {
                Some((a, v)) => self.committed().contains_key(handle) && *a
                    == self.committed()[handle].asset && v == self.committed()[handle].version,
                None => !self.committed().contains_key(handle),
            },
    {
        match self.assets.get(&handle) {
            Some(state) => Some((&state.asset, state.version)),
            None => None,
        }
    }

    /// The handles for which an asset is published, each once, in no
    /// particular order.
    pub fn handles(&self) -> (handles: Vec<LoadHandle>)
        ensures
            handles@.to_set() == self.committed().dom(),
            handles@.no_duplicates(),
    {
        let mut handles: Vec<LoadHandle> = Vec::new();
        let ghost all = self.assets.keys().remaining();
        for handle in it: self.assets.keys()
            invariant
                it.seq() == all,
                handles@ == all.take(it.index()).unref(),
        {
            handles.push(*handle);
            proof {
                assert(all.take(it.index() + 1).unref() =~= all.take(it.index()).unref().push(
                    *handle,
                ));
            }
        }
        proof {
            assert(all.take(all.len() as int) =~= all);
            assert forall|i: int, j: int|
                0 <= i < handles@.len() && 0 <= j < handles@.len() && i != j implies handles@[i]
                != handles@[j] by {
                assert(all[i] != all[j]);
            }
        }
        handles
    }

    /// Replaces the asset published for `handle` by what `change` makes of
    /// it, under the same store version. Does nothing where no asset is
    /// published for `handle`.
    pub fn mutate_asset_in_storage<F: FnOnce(A) -> A>(&mut self, handle: LoadHandle, change: F)
        requires
            old(self).committed().contains_key(handle) ==> change.requires(
                (old(self).committed()[handle].asset,),
            ),
        ensures
            final(self).staged() == old(self).staged(),
            !old(self).committed().contains_key(handle) ==> final(self).committed() == old(
                self,
            ).committed(),
            old(self).committed().contains_key(handle) ==> exists|changed: A|
                #![trigger change.ensures((old(self).committed()[handle].asset,), changed)]
                change.ensures((old(self).committed()[handle].asset,), changed)
                    && final(self).committed() == old(self).committed().insert(
                    handle,
                    AssetState { version: old(self).committed()[handle].version, asset: changed },
                ),
    {
        match self.assets.remove(&handle) {
            Some(state) => {
                let AssetState { version, asset } = state;
                let changed = change(asset);
                self.assets.insert(handle, AssetState { version, asset: changed });
            },
            None => {},
        }
    }
}

} // verus!
