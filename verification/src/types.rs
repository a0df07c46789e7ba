//! The records that travel through the pipeline, and their mathematical views.

use vstd::prelude::*;

verus! {

/// The routing handle that the loader gives to an asset.
pub type LoadHandle = u64;

/// The fixed-width identity of a prefab.
pub type PrefabUuid = u128;

/// A prefab as it was decoded: its identity and the identities of the prefabs
/// that it builds on, in the order in which they are to be resolved.
#[derive(Clone, Debug, PartialEq, Eq)]
pub struct RawPrefab {
    pub id: PrefabUuid,
    pub prefab_refs: Vec<PrefabUuid>,
}

impl RawPrefab {
    /// A raw prefab that builds on nothing.
    pub fn new(id: PrefabUuid) -> (raw: RawPrefab)
        ensures
            raw.id == id,
            raw.prefab_refs@ == Seq::<PrefabUuid>::empty(),
    {
        RawPrefab { id, prefab_refs: Vec::new() }
    }

    /// The identity of this prefab.
    pub fn prefab_id(&self) -> (id: PrefabUuid)
        ensures
            id == self.id,
    {
        self.id
    }

    /// Records that this prefab builds on the prefab `other`.
    pub fn add_ref(&mut self, other: PrefabUuid)
        ensures
            final(self).id == old(self).id,
            final(self).prefab_refs@ == old(self).prefab_refs@.push(other),
    {
        self.prefab_refs.push(other);
    }
}

/// The result of cooking a prefab: the identities of its closure in the order
/// in which they are flattened, everything a prefab builds on before the
/// prefab itself, the cooked prefab last.
#[derive(Clone, Debug, PartialEq, Eq)]
pub struct CookedPrefab {
    pub cook_order: Vec<PrefabUuid>,
}

/// The handles of the records that build on a record: a set, kept in the
/// order in which the handles were registered.
#[derive(Debug, PartialEq, Eq)]
pub struct Dependers {
    handles: Vec<LoadHandle>,
}

impl View for Dependers {
    type V = Seq<LoadHandle>;

    closed spec fn view(&self) -> Seq<LoadHandle> {
        self.handles@
    }
}

impl Dependers {
    #[verifier::type_invariant]
    closed spec fn distinct(self) -> bool {
        self.handles@.no_duplicates()
    }

    /// No dependers.
    pub fn new() -> (d: Dependers)
        ensures
            d@ == Seq::<LoadHandle>::empty(),
    {
        Dependers { handles: Vec::new() }
    }

    /// Registers `handle`. The result tells whether it was new.
    pub fn insert(&mut self, handle: LoadHandle) -> (fresh: bool)
        ensures
            fresh == !old(self)@.contains(handle),
            final(self)@ == if fresh {
                old(self)@.push(handle)
            } else {
                old(self)@
            },
    {
        proof {
            use_type_invariant(&*self);
        }
        let mut i: usize = 0;
        while i < self.handles.len()
            invariant
                i <= self.handles@.len(),
                self.handles@ == old(self).handles@,
                forall|j: int| 0 <= j < i ==> self.handles@[j] != handle,
            decreases self.handles@.len() - i,
        {
            if self.handles[i] == handle {
                return false;
            }
            i += 1;
        }
        let mut taken = Dependers::new();
        std::mem::swap(self, &mut taken);
        let Dependers { handles } = taken;
        let mut handles = handles;
        handles.push(handle);
        *self = Dependers { handles };
        true
    }

    /// The number of dependers, none of which occurs twice.
    pub fn len(&self) -> (n: usize)
        ensures
            n == self@.len(),
            self@.no_duplicates(),
    {
        proof {
            use_type_invariant(self);
        }
        self.handles.len()
    }

    /// The depender at position `i`.
    pub fn get(&self, i: usize) -> (handle: LoadHandle)
        requires
            i < self@.len(),
        ensures
            handle == self@[i as int],
    {
        self.handles[i]
    }
}

/// An asset record.
#[derive(Debug, PartialEq, Eq)]
pub struct Prefab {
    /// The record as it was decoded. Never changed by the pipeline.
    pub raw_prefab: RawPrefab,
    /// The cooked output; `None` until the closure has been resolved.
    pub prefab: Option<CookedPrefab>,
    /// The handles of the prefabs named by `raw_prefab`, in the same order;
    /// `None` until the record is first examined.
    pub dependencies: Option<Vec<LoadHandle>>,
    /// The handles of the records that build on this one. Only read here.
    pub dependers: Dependers,
    /// Bumped on every cook.
    pub version: u32,
}

/// What a [`Prefab`] holds, as mathematical values.
pub ghost struct PrefabView {
    pub id: PrefabUuid,
    pub prefab_refs: Seq<PrefabUuid>,
    pub prefab: Option<Seq<PrefabUuid>>,
    pub dependencies: Option<Seq<LoadHandle>>,
    pub dependers: Seq<LoadHandle>,
    pub version: u32,
}

impl View for Prefab {
    type V = PrefabView;

    open spec fn view(&self) -> PrefabView {
        PrefabView {
            id: self.raw_prefab.id,
            prefab_refs: self.raw_prefab.prefab_refs@,
            prefab: match self.prefab {
                Some(cooked) => Some(cooked.cook_order@),
                None => None,
            },
            dependencies: match self.dependencies {
                Some(handles) => Some(handles@),
                None => None,
            },
            dependers: self.dependers@,
            version: self.version,
        }
    }
}

impl Prefab {
    /// A fresh record around a decoded prefab: nothing resolved, nothing
    /// cooked, no dependers, version 0.
    pub fn new(raw_prefab: RawPrefab) -> (p: Prefab)
        ensures
            p@ == (PrefabView {
                id: raw_prefab.id,
                prefab_refs: raw_prefab.prefab_refs@,
                prefab: None,
                dependencies: None,
                dependers: Seq::empty(),
                version: 0,
            }),
    {
        Prefab {
            raw_prefab,
            prefab: None,
            dependencies: None,
            dependers: Dependers::new(),
            version: 0,
        }
    }
}

/// Why a load came to nothing: the payload could not be decoded.
#[derive(Clone, Debug, PartialEq, Eq)]
pub struct LoadError {
    pub message: String,
}

/// The one-shot signal that ends a load request. It is used up by the call
/// that reports the outcome.
#[derive(Debug, PartialEq, Eq)]
pub struct LoadNotifier {
    pub load_handle: LoadHandle,
}

/// The outcome of one load request, for whoever asked for the load.
#[derive(Debug, PartialEq, Eq)]
pub struct Notification {
    pub load_notifier: LoadNotifier,
    pub result: Result<(), LoadError>,
}

impl LoadNotifier {
    /// A signal for the load of `load_handle`.
    pub fn new(load_handle: LoadHandle) -> (n: LoadNotifier)
        ensures
            n.load_handle == load_handle,
    {
        LoadNotifier { load_handle }
    }

    /// Reports that the load has succeeded.
    pub fn complete(self) -> (n: Notification)
        ensures
            n == (Notification { load_notifier: self, result: Ok(()) }),
    {
        Notification { load_notifier: self, result: Ok(()) }
    }

    /// Reports that the load has failed for good.
    pub fn error(self, error: LoadError) -> (n: Notification)
        ensures
            n == (Notification { load_notifier: self, result: Err(error) }),
    {
        Notification { load_notifier: self, result: Err(error) }
    }
}

/// Whoever hands out the handles of assets.
pub trait Loader {
    /// Whether `handle` is a handle that this loader may give for `id`. A
    /// loader that says nothing of its handles may give any.
    open spec fn hands_out(&self, id: PrefabUuid, handle: LoadHandle) -> bool {
        true
    }

    /// The handle under which the prefab `id` is or will be loaded.
    fn load_asset(&self, id: PrefabUuid) -> (handle: LoadHandle)
        ensures
            self.hands_out(id, handle),
    ;
}

/// How far the loading of an asset has come.
#[derive(Debug, PartialEq, Eq)]
pub enum ProcessingState<D, A> {
    /// Something that the asset builds on is not published yet: the asset
    /// has to wait.
    Loading(D),
    /// Everything that the asset builds on is published: the asset can be
    /// cooked and stored.
    Loaded(A),
}

/// An asset on its way through the pipeline.
#[derive(Debug, PartialEq, Eq)]
pub struct Processed {
    /// The record, or the reason why there is none.
    pub data: Result<Prefab, LoadError>,
    /// Where the record goes in storage.
    pub handle: LoadHandle,
    /// Whom to tell about the outcome.
    pub load_notifier: LoadNotifier,
    /// The version under which storage is to hold the record.
    pub version: u32,
    /// Whether storage is to publish that version at once.
    pub commit: bool,
}

/// What a [`Processed`] holds, as mathematical values.
pub ghost struct ProcessedView {
    pub data: Result<PrefabView, LoadError>,
    pub handle: LoadHandle,
    pub load_notifier: LoadNotifier,
    pub version: u32,
    pub commit: bool,
}

impl View for Processed {
    type V = ProcessedView;

    open spec fn view(&self) -> ProcessedView {
        ProcessedView {
            data: match self.data {
                Ok(p) => Ok(p@),
                Err(e) => Err(e),
            },
            handle: self.handle,
            load_notifier: self.load_notifier,
            version: self.version,
            commit: self.commit,
        }
    }
}

} // verus!
