use vstd::prelude::*;

use crate::error::{Code, IndexResolverError};
use crate::index_uid::{is_valid_index_uid, valid_index_uid};
use crate::registry::{
    has_name, has_uuid, index_of, lemma_index_of_unique, lookup, names_unique, UuidRegistry,
};
use crate::store::{holds, key_view, lemma_slot_of_unique, slot_of, HandleStore};

verus! {

/// Relies on uuid::Uuid::new_v4 for a fresh random identifier, read back
/// with `as_u128`. Nothing is known of the value.
#[verifier::external_body]
fn new_uuid() -> (r: u128) {
    uuid::Uuid::new_v4().as_u128()
}

/// Instance `i` of `is` belongs to entry `i` of `es`.
pub open spec fn aligned(es: Seq<(Seq<char>, u128)>, is: Seq<(u128, Option<Seq<char>>)>) -> bool {
    is.len() == es.len() && forall|i: int| 0 <= i < is.len() ==> (#[trigger] is[i]).0 == es[i].1
}

/// An index as a request sees it: its identifier and its primary key.
#[derive(Debug)]
pub struct IndexHandle {
    pub uuid: u128,
    pub primary_key: Option<String>,
}

/// One line of an index listing.
#[derive(Debug)]
pub struct IndexInfo {
    pub name: String,
    pub uuid: u128,
    pub primary_key: Option<String>,
}

/// Owns the name registry and the storage instances, and keeps the two in
/// step: every operation takes `&mut self`, so operations on one resolver
/// run one at a time.
pub struct IndexResolver {
    registry: UuidRegistry,
    store: HandleStore,
}

impl IndexResolver {
    /// The bindings of names to identifiers, oldest first.
    pub closed spec fn entries(&self) -> Seq<(Seq<char>, u128)> {
        self.registry.entries()
    }

    /// The identifiers of deleted indexes.
    pub closed spec fn retired(&self) -> Seq<u128> {
        self.registry.retired()
    }

    /// The storage instances, as identifier and primary key.
    pub closed spec fn instances(&self) -> Seq<(u128, Option<Seq<char>>)> {
        self.store.instances()
    }

    /// Names and identifiers are unique, no retired identifier is bound,
    /// and each binding has exactly its own storage instance.
    pub closed spec fn wf(&self) -> bool {
        &&& self.registry.wf()
        &&& self.store.wf()
        &&& aligned(self.entries(), self.instances())
    }

    /// Whether `u` is bound now or was bound before.
    pub open spec fn used(&self, u: u128) -> bool {
        has_uuid(self.entries(), u) || self.retired().contains(u)
    }

    /// The primary key recorded for the index named `name`.
    pub open spec fn primary_key_of(&self, name: Seq<char>) -> Option<Seq<char>> {
        self.instances()[index_of(self.entries(), name)].1
    }

    /// `a` and `b` hold the same indexes.
    pub open spec fn same(a: &Self, b: &Self) -> bool {
        &&& b.entries() == a.entries()
        &&& b.instances() == a.instances()
        &&& b.retired() == a.retired()
    }

    /// The code of the error with which creating `name` under `uuid` fails,
    /// given whether allocating its storage succeeds; `None` when it succeeds.
    /// The checks come in the order of the steps: the name, an identifier
    /// that still has storage, the allocation, then the registry's refusal
    /// of a retired identifier.
    pub open spec fn create_failure(&self, name: Seq<char>, uuid: u128, allocated: bool) -> Option<
        Code,
    > {
        if !valid_index_uid(name) {
            Some(Code::InvalidIndexUid)
        } else if has_name(self.entries(), name) {
            Some(Code::IndexAlreadyExists)
        } else if has_uuid(self.entries(), uuid) {
            Some(Code::CreateIndex)
        } else if !allocated {
            Some(Code::Internal)
        } else if self.retired().contains(uuid) {
            Some(Code::CreateIndex)
        } else {
            None
        }
    }

    /// `new` is `old` after a successful creation of `name` under `uuid`
    /// with primary key `pk`.
    pub open spec fn created(
        old: &Self,
        new: &Self,
        name: Seq<char>,
        uuid: u128,
        pk: Option<Seq<char>>,
    ) -> bool {
        &&& valid_index_uid(name)
        &&& !has_name(old.entries(), name)
        &&& !old.used(uuid)
        &&& new.entries() == old.entries().push((name, uuid))
        &&& new.instances() == old.instances().push((uuid, pk))
        &&& new.retired() == old.retired()
    }

    /// `new` is `old` after the index `name`, bound to `uuid`, was deleted.
    pub open spec fn deleted(old: &Self, new: &Self, name: Seq<char>, uuid: u128) -> bool {
        &&& lookup(old.entries(), name) == Some(uuid)
        &&& new.entries() == old.entries().remove(index_of(old.entries(), name))
        &&& new.instances() == old.instances().remove(index_of(old.entries(), name))
        &&& new.retired() == old.retired().push(uuid)
    }

    /// The code of the error with which setting `key` as the primary key of
    /// `name` fails; `None` when it succeeds.
    pub open spec fn set_key_failure(&self, name: Seq<char>, key: Seq<char>) -> Option<Code> {
        if !has_name(self.entries(), name) {
            Some(Code::IndexNotFound)
        } else if self.primary_key_of(name) is Some && self.primary_key_of(name) != Some(key) {
            Some(Code::PrimaryKeyAlreadyPresent)
        } else {
            None
        }
    }

    /// `new` is `old` with `key` recorded as the primary key of `name`.
    pub open spec fn key_set(old: &Self, new: &Self, name: Seq<char>, key: Seq<char>) -> bool {
        &&& new.entries() == old.entries()
        &&& new.retired() == old.retired()
        &&& new.instances() == old.instances().update(
            index_of(old.entries(), name),
            (old.entries()[index_of(old.entries(), name)].1, Some(key)),
        )
    }

    proof fn lemma_slot_matches(&self, i: int)
        requires
            self.wf(),
            0 <= i < self.entries().len(),
        ensures
            holds(self.instances(), self.entries()[i].1),
            slot_of(self.instances(), self.entries()[i].1) == i,
            index_of(self.entries(), self.entries()[i].0) == i,
            lookup(self.entries(), self.entries()[i].0) == Some(self.entries()[i].1),
    {
        lemma_index_of_unique(self.entries(), i);
        lemma_slot_of_unique(self.instances(), i);
    }

    proof fn lemma_storage_follows_registry(&self, u: u128)
        requires
            self.wf(),
        ensures
            holds(self.instances(), u) <==> has_uuid(self.entries(), u),
    {
        if holds(self.instances(), u) {
            let i = choose|i: int| 0 <= i < self.instances().len() && (#[trigger] self.instances()[i]).0 == u;
            assert(self.entries()[i].1 == u);
        }
        if has_uuid(self.entries(), u) {
            let i = choose|i: int| 0 <= i < self.entries().len() && (#[trigger] self.entries()[i]).1 == u;
            assert(self.instances()[i].0 == u);
        }
    }

    pub fn new() -> (r: Self)
        ensures
            r.wf(),
            r.entries() == Seq::<(Seq<char>, u128)>::empty(),
            r.instances() == Seq::<(u128, Option<Seq<char>>)>::empty(),
            r.retired() == Seq::<u128>::empty(),
    {
        IndexResolver { registry: UuidRegistry::new(), store: HandleStore::new() }
    }

    /// Creates the index `name` under `uuid`, given how allocating its
    /// storage went, and records `primary_key` on it when one is given.
    /// Every check comes before any change, and a failure leaves nothing
    /// behind: a storage instance made for a binding that could not be
    /// committed is deleted again.
    pub fn create_index_with(
        &mut self,
        name: &str,
        uuid: u128,
        primary_key: Option<String>,
        allocation: Result<(), String>,
    ) -> (r: Result<u128, IndexResolverError>)
        requires
            old(self).wf(),
        ensures
            final(self).wf(),
            match old(self).create_failure(name@, uuid, allocation is Ok) {
                None => {
                    &&& r == Ok::<u128, IndexResolverError>(uuid)
                    &&& Self::created(old(self), final(self), name@, uuid, key_view(primary_key))
                },
                Some(c) => {
                    &&& r matches Err(e) && e.code() == c
                    &&& Self::same(old(self), final(self))
                },
            },
            !valid_index_uid(name@) ==> (r matches Err(IndexResolverError::BadlyFormatted(n))
                && n@ == name@),
            valid_index_uid(name@) && has_name(old(self).entries(), name@) ==> (r matches Err(
                IndexResolverError::IndexAlreadyExists(n),
            ) && n@ == name@),
            valid_index_uid(name@) && !has_name(old(self).entries(), name@) && old(self).used(uuid)
                && (allocation is Ok || has_uuid(old(self).entries(), uuid)) ==> r == Err::<
                u128,
                IndexResolverError,
            >(IndexResolverError::UuidAlreadyExists(uuid)),
            allocation is Err && old(self).create_failure(name@, uuid, false) == Some(
                Code::Internal,
            ) ==> r == Err::<u128, IndexResolverError>(
                IndexResolverError::Internal(allocation->Err_0),
            ),
            r matches Err(IndexResolverError::Internal(c)) ==> allocation == Err::<(), String>(c),
            r matches Err(IndexResolverError::UuidAlreadyExists(u)) ==> u == uuid && old(
                self,
            ).used(u),
    {
        if !is_valid_index_uid(name) {
            return Err(IndexResolverError::BadlyFormatted(name.to_owned()));
        }
        if self.registry.position(name).is_some() {
            return Err(IndexResolverError::IndexAlreadyExists(name.to_owned()));
        }
        if self.store.position(uuid).is_some() {
            return Err(IndexResolverError::UuidAlreadyExists(uuid));
        }
        proof {
            self.lemma_storage_follows_registry(uuid);
        }
        let ghost s0 = *self;
        if let Err(e) = self.store.create(uuid, allocation) {
            return Err(e);
        }
        if let Err(e) = self.registry.insert(name, uuid) {
            // The identifier was retired: undo the storage just created.
            proof {
                lemma_slot_of_unique(self.instances(), s0.instances().len() as int);
            }
            self.store.delete(uuid);
            assert(self.instances() =~= s0.instances());
            return Err(e);
        }
        let ghost n = s0.entries().len();
        proof {
            assert(self.instances()[n as int].0 == uuid);
            lemma_slot_of_unique(self.instances(), n as int);
        }
        if let Some(pk) = primary_key {
            self.store.record_primary_key(uuid, pk);
            assert(self.instances() =~= s0.instances().push((uuid, Some(pk@))));
        }
        Ok(uuid)
    }

    /// Creates the index `name` under a fresh random identifier, and records
    /// `primary_key` on it when one is given.
    pub fn create_index(&mut self, name: &str, primary_key: Option<String>) -> (r: Result<
        u128,
        IndexResolverError,
    >)
        requires
            old(self).wf(),
        ensures
            final(self).wf(),
            !valid_index_uid(name@) ==> (r matches Err(IndexResolverError::BadlyFormatted(n))
                && n@ == name@),
            valid_index_uid(name@) && has_name(old(self).entries(), name@) ==> (r matches Err(
                IndexResolverError::IndexAlreadyExists(n),
            ) && n@ == name@),
            valid_index_uid(name@) && !has_name(old(self).entries(), name@) ==> (r is Ok || r
                matches Err(IndexResolverError::UuidAlreadyExists(_))),
            r matches Err(IndexResolverError::UuidAlreadyExists(u)) ==> old(self).used(u),
            r matches Ok(u) ==> Self::created(old(self), final(self), name@, u, key_view(primary_key)),
            r is Err ==> Self::same(old(self), final(self)),
    {
        let uuid = new_uuid();
        self.create_index_with(name, uuid, primary_key, Ok(()))
    }

    /// The index bound to `name`. A handle is only ever given out for an
    /// index whose storage instance exists.
    pub fn get_index(&self, name: &str) -> (r: Result<IndexHandle, IndexResolverError>)
        requires
            self.wf(),
        ensures
            match lookup(self.entries(), name@) {
                Some(u) => {
                    &&& r matches Ok(h) && h.uuid == u && key_view(h.primary_key)
                        == self.primary_key_of(name@)
                    &&& holds(self.instances(), u)
                },
                None => r matches Err(IndexResolverError::UnexistingIndex(n)) && n@ == name@,
            },
    {
        match self.registry.position(name) {
            Some(i) => {
                proof {
                    self.lemma_slot_matches(i as int);
                }
                let uuid = self.registry.get_at(i);
                let primary_key = self.store.primary_key(uuid);
                Ok(IndexHandle { uuid, primary_key })
            },
            None => Err(IndexResolverError::UnexistingIndex(name.to_owned())),
        }
    }

    /// Deletes the index `name`, given how removing its storage went: its
    /// storage instance first, then its binding, so that the name is free
    /// only once the storage is gone, and the identifier is retired for
    /// good. A failed removal is reported with its cause and changes nothing,
    /// so the index stays reachable.
    pub fn delete_index_with(&mut self, name: &str, removal: Result<(), String>) -> (r: Result<
        u128,
        IndexResolverError,
    >)
        requires
            old(self).wf(),
        ensures
            final(self).wf(),
            match lookup(old(self).entries(), name@) {
                Some(u) => match removal {
                    Ok(()) => r == Ok::<u128, IndexResolverError>(u) && Self::deleted(
                        old(self),
                        final(self),
                        name@,
                        u,
                    ),
                    Err(c) => {
                        &&& r == Err::<u128, IndexResolverError>(IndexResolverError::Internal(c))
                        &&& Self::same(old(self), final(self))
                    },
                },
                None => {
                    &&& r matches Err(IndexResolverError::UnexistingIndex(n)) && n@ == name@
                    &&& Self::same(old(self), final(self))
                },
            },
    {
        let i = match self.registry.position(name) {
            Some(i) => i,
            None => {
                return Err(IndexResolverError::UnexistingIndex(name.to_owned()));
            },
        };
        if let Err(cause) = removal {
            return Err(IndexResolverError::Internal(cause));
        }
        let ghost s0 = *self;
        proof {
            self.lemma_slot_matches(i as int);
        }
        let uuid = self.registry.get_at(i);
        self.store.delete(uuid);
        let r = self.registry.remove(name);
        proof {
            assert forall|k: int| 0 <= k < self.instances().len() implies (
            #[trigger] self.instances()[k]).0 == self.entries()[k].1 by {
                if k < i {
                    assert(self.instances()[k] == s0.instances()[k]);
                    assert(self.entries()[k] == s0.entries()[k]);
                } else {
                    assert(self.instances()[k] == s0.instances()[k + 1]);
                    assert(self.entries()[k] == s0.entries()[k + 1]);
                }
            }
        }
        r
    }

    /// Deletes the index `name`: its storage instance first, then its
    /// binding, so that the name is free only once the storage is gone. The
    /// identifier is retired for good.
    pub fn delete_index(&mut self, name: &str) -> (r: Result<u128, IndexResolverError>)
        requires
            old(self).wf(),
        ensures
            final(self).wf(),
            match lookup(old(self).entries(), name@) {
                Some(u) => r == Ok::<u128, IndexResolverError>(u) && Self::deleted(
                    old(self),
                    final(self),
                    name@,
                    u,
                ),
                None => {
                    &&& r matches Err(IndexResolverError::UnexistingIndex(n)) && n@ == name@
                    &&& Self::same(old(self), final(self))
                },
            },
    {
        self.delete_index_with(name, Ok(()))
    }

    /// Records `key` as the primary key of `name`. A primary key, once
    /// recorded, can be set again only to the same value, which changes
    /// nothing.
    pub fn set_primary_key(&mut self, name: &str, key: String) -> (r: Result<
        (),
        IndexResolverError,
    >)
        requires
            old(self).wf(),
        ensures
            final(self).wf(),
            match old(self).set_key_failure(name@, key@) {
                None => r is Ok && Self::key_set(old(self), final(self), name@, key@),
                Some(c) => {
                    &&& r matches Err(e) && e.code() == c
                    &&& Self::same(old(self), final(self))
                },
            },
            !has_name(old(self).entries(), name@) ==> (r matches Err(
                IndexResolverError::UnexistingIndex(n),
            ) && n@ == name@),
            has_name(old(self).entries(), name@) && old(self).set_key_failure(name@, key@) is Some
                ==> r == Err::<(), IndexResolverError>(IndexResolverError::ExistingPrimaryKey),
    {
        let i = match self.registry.position(name) {
            Some(i) => i,
            None => {
                return Err(IndexResolverError::UnexistingIndex(name.to_owned()));
            },
        };
        let ghost s0 = *self;
        proof {
            self.lemma_slot_matches(i as int);
        }
        let uuid = self.registry.get_at(i);
        if let Some(current) = self.store.primary_key(uuid) {
            if current != key {
                return Err(IndexResolverError::ExistingPrimaryKey);
            }
        }
        self.store.record_primary_key(uuid, key);
        proof {
            assert forall|k: int| 0 <= k < self.instances().len() implies (
            #[trigger] self.instances()[k]).0 == self.entries()[k].1 by {
                assert(self.entries()[k] == s0.entries()[k]);
                if k != i {
                    assert(self.instances()[k] == s0.instances()[k]);
                }
            }
        }
        Ok(())
    }

    /// Every index, oldest first, with its identifier and primary key.
    pub fn list_indexes(&self) -> (r: Vec<IndexInfo>)
        requires
            self.wf(),
        ensures
            r@.len() == self.entries().len(),
            forall|i: int|
                0 <= i < r@.len() ==> {
                    &&& (#[trigger] r@[i]).name@ == self.entries()[i].0
                    &&& r@[i].uuid == self.entries()[i].1
                    &&& key_view(r@[i].primary_key) == self.instances()[i].1
                },
    {
        let bindings = self.registry.list();
        let mut out: Vec<IndexInfo> = Vec::new();
        let mut i: usize = 0;
        while i < bindings.len()
            invariant
                self.wf(),
                bindings@.len() == self.entries().len(),
                forall|j: int|
                    0 <= j < bindings@.len() ==> (#[trigger] bindings@[j]).0@ == self.entries()[j].0
                        && bindings@[j].1 == self.entries()[j].1,
                i <= bindings@.len(),
                out@.len() == i,
                forall|j: int|
                    0 <= j < i ==> {
                        &&& (#[trigger] out@[j]).name@ == self.entries()[j].0
                        &&& out@[j].uuid == self.entries()[j].1
                        &&& key_view(out@[j].primary_key) == self.instances()[j].1
                    },
            decreases bindings@.len() - i,
        {
            let (name, uuid) = (bindings[i].0.clone(), bindings[i].1);
            proof {
                self.lemma_slot_matches(i as int);
            }
            let primary_key = self.store.primary_key(uuid);
            out.push(IndexInfo { name, uuid, primary_key });
            i = i + 1;
        }
        out
    }

    /// Moves the index `old_name` to the name `new_name` in one step; its
    /// identifier and storage stay as they are.
    pub fn rename_index(&mut self, old_name: &str, new_name: &str) -> (r: Result<
        (),
        IndexResolverError,
    >)
        requires
            old(self).wf(),
        ensures
            final(self).wf(),
            !valid_index_uid(new_name@) ==> (r matches Err(IndexResolverError::BadlyFormatted(n))
                && n@ == new_name@),
            valid_index_uid(new_name@) && !has_name(old(self).entries(), old_name@) ==> (r matches Err(
                IndexResolverError::UnexistingIndex(n),
            ) && n@ == old_name@),
            valid_index_uid(new_name@) && has_name(old(self).entries(), old_name@) && has_name(
                old(self).entries(),
                new_name@,
            ) ==> (r matches Err(IndexResolverError::IndexAlreadyExists(n)) && n@ == new_name@),
            valid_index_uid(new_name@) && has_name(old(self).entries(), old_name@) && !has_name(
                old(self).entries(),
                new_name@,
            ) ==> r is Ok,
            r is Ok ==> {
                &&& final(self).entries() == old(self).entries().update(
                    index_of(old(self).entries(), old_name@),
                    (new_name@, old(self).entries()[index_of(old(self).entries(), old_name@)].1),
                )
                &&& final(self).instances() == old(self).instances()
                &&& final(self).retired() == old(self).retired()
            },
            r is Err ==> Self::same(old(self), final(self)),
    {
        if !is_valid_index_uid(new_name) {
            return Err(IndexResolverError::BadlyFormatted(new_name.to_owned()));
        }
        let ghost s0 = *self;
        let r = self.registry.rename(old_name, new_name);
        proof {
            if r is Ok {
                let i = index_of(s0.entries(), old_name@);
                assert forall|k: int| 0 <= k < self.instances().len() implies (
                #[trigger] self.instances()[k]).0 == self.entries()[k].1 by {
                    assert(self.instances()[k] == s0.instances()[k]);
                    if k != i {
                        assert(self.entries()[k] == s0.entries()[k]);
                    }
                }
            }
        }
        r
    }

    /// The index `name` if it exists, left as it is (`primary_key` is then
    /// ignored); otherwise the index created as `create_index_with` does.
    pub fn get_or_create_index_with(
        &mut self,
        name: &str,
        uuid: u128,
        primary_key: Option<String>,
        allocation: Result<(), String>,
    ) -> (r: Result<IndexHandle, IndexResolverError>)
        requires
            old(self).wf(),
        ensures
            final(self).wf(),
            match lookup(old(self).entries(), name@) {
                Some(u) => {
                    &&& r matches Ok(h) && h.uuid == u && key_view(h.primary_key)
                        == old(self).primary_key_of(name@)
                    &&& Self::same(old(self), final(self))
                },
                None => match old(self).create_failure(name@, uuid, allocation is Ok) {
                    None => {
                        &&& r matches Ok(h) && h.uuid == uuid && key_view(h.primary_key)
                            == key_view(primary_key)
                        &&& Self::created(
                            old(self),
                            final(self),
                            name@,
                            uuid,
                            key_view(primary_key),
                        )
                    },
                    Some(c) => {
                        &&& r matches Err(e) && e.code() == c
                        &&& Self::same(old(self), final(self))
                    },
                },
            },
            !has_name(old(self).entries(), name@) && !valid_index_uid(name@) ==> (r matches Err(
                IndexResolverError::BadlyFormatted(n),
            ) && n@ == name@),
            !has_name(old(self).entries(), name@) && valid_index_uid(name@) && old(self).used(uuid)
                && (allocation is Ok || has_uuid(old(self).entries(), uuid)) ==> (r matches Err(IndexResolverError::UuidAlreadyExists(u)) && u == uuid),
            lookup(old(self).entries(), name@) is None && allocation is Err && old(
                self,
            ).create_failure(name@, uuid, false) == Some(Code::Internal) ==> (r matches Err(
                IndexResolverError::Internal(m),
            ) && m == allocation->Err_0),
            r matches Err(IndexResolverError::Internal(c)) ==> allocation == Err::<(), String>(c),
            r matches Err(IndexResolverError::UuidAlreadyExists(u)) ==> u == uuid && old(
                self,
            ).used(u),
    {
        if self.registry.position(name).is_some() {
            return self.get_index(name);
        }
        let ghost s0 = *self;
        match self.create_index_with(name, uuid, primary_key, allocation) {
            Ok(_) => {
                proof {
                    self.lemma_slot_matches(s0.entries().len() as int);
                }
                self.get_index(name)
            },
            Err(e) => Err(e),
        }
    }

    /// The index `name` if it exists; otherwise the index created under a
    /// fresh random identifier.
    pub fn get_or_create_index(&mut self, name: &str, primary_key: Option<String>) -> (r: Result<
        IndexHandle,
        IndexResolverError,
    >)
        requires
            old(self).wf(),
        ensures
            final(self).wf(),
            match lookup(old(self).entries(), name@) {
                Some(u) => {
                    &&& r matches Ok(h) && h.uuid == u && key_view(h.primary_key)
                        == old(self).primary_key_of(name@)
                    &&& Self::same(old(self), final(self))
                },
                None => {
                    &&& !valid_index_uid(name@) ==> (r matches Err(
                        IndexResolverError::BadlyFormatted(n),
                    ) && n@ == name@)
                    &&& valid_index_uid(name@) ==> (r is Ok || r matches Err(
                        IndexResolverError::UuidAlreadyExists(_),
                    ))
                    &&& r matches Ok(h) ==> key_view(h.primary_key) == key_view(primary_key)
                        && Self::created(
                        old(self),
                        final(self),
                        name@,
                        h.uuid,
                        key_view(primary_key),
                    )
                    &&& r is Err ==> Self::same(old(self), final(self))
                },
            },
            r matches Err(IndexResolverError::UuidAlreadyExists(u)) ==> old(self).used(u),
    {
        let uuid = new_uuid();
        self.get_or_create_index_with(name, uuid, primary_key, Ok(()))
    }
}

/// After a creation of `name` succeeded, every further creation of `name`
/// fails with `IndexAlreadyExists`, whatever identifier it draws: of any
/// number of creations of one name, exactly one succeeds.
pub proof fn lemma_create_is_exclusive(
    s0: IndexResolver,
    s1: IndexResolver,
    name: Seq<char>,
    u: u128,
    pk: Option<Seq<char>>,
    u2: u128,
    allocated: bool,
)
    requires
        s0.wf(),
        IndexResolver::created(&s0, &s1, name, u, pk),
    ensures
        s1.create_failure(name, u2, allocated) == Some(Code::IndexAlreadyExists),
{
    assert(s1.entries()[s0.entries().len() as int].0 == name);
}

/// A storage instance exists exactly for the identifiers that the registry
/// binds: no operation, failed or not, leaves storage that no name reaches.
pub proof fn lemma_no_orphan_storage(s: IndexResolver, u: u128)
    requires
        s.wf(),
    ensures
        holds(s.instances(), u) <==> has_uuid(s.entries(), u),
{
    s.lemma_storage_follows_registry(u);
}

proof fn lemma_removed_name_gone(es: Seq<(Seq<char>, u128)>, name: Seq<char>)
    requires
        names_unique(es),
        has_name(es, name),
    ensures
        !has_name(es.remove(index_of(es, name)), name),
        names_unique(es.remove(index_of(es, name))),
{
    let i = index_of(es, name);
    let rs = es.remove(i);
    if has_name(rs, name) {
        let j = choose|j: int| 0 <= j < rs.len() && (#[trigger] rs[j]).0 == name;
        let j0 = if j < i { j } else { j + 1 };
        assert(rs[j] == es[j0]);
    }
    assert forall|a: int, b: int| 0 <= a < rs.len() && 0 <= b < rs.len() && a != b implies (
    #[trigger] rs[a]).0 != (#[trigger] rs[b]).0 by {
        let a0 = if a < i { a } else { a + 1 };
        let b0 = if b < i { b } else { b + 1 };
        assert(rs[a] == es[a0]);
        assert(rs[b] == es[b0]);
    }
}

/// Once `name` is deleted, creating it again succeeds under any identifier
/// never used before, and that identifier differs from the deleted one.
pub proof fn lemma_name_reuse_after_delete(
    s0: IndexResolver,
    s1: IndexResolver,
    name: Seq<char>,
    u1: u128,
    u2: u128,
)
    requires
        s0.wf(),
        IndexResolver::deleted(&s0, &s1, name, u1),
        valid_index_uid(name),
        !s1.used(u2),
    ensures
        s1.create_failure(name, u2, true) is None,
        u2 != u1,
{
    lemma_removed_name_gone(s0.entries(), name);
    assert(s1.retired()[s0.retired().len() as int] == u1);
}

/// Once a primary key is recorded, setting a different one fails with
/// `ExistingPrimaryKey`, and setting the same one again succeeds and
/// changes nothing.
pub proof fn lemma_primary_key_is_immutable(
    s0: IndexResolver,
    s1: IndexResolver,
    name: Seq<char>,
    a: Seq<char>,
    b: Seq<char>,
)
    requires
        s0.wf(),
        s0.set_key_failure(name, a) is None,
        IndexResolver::key_set(&s0, &s1, name, a),
        a != b,
    ensures
        s1.set_key_failure(name, b) == Some(Code::PrimaryKeyAlreadyPresent),
        s1.set_key_failure(name, a) is None,
        IndexResolver::key_set(&s1, &s1, name, a),
{
    let i = index_of(s0.entries(), name);
    assert(s1.instances()[i] == (s0.entries()[i].1, Some(a)));
    assert(s1.instances().update(i, (s1.entries()[i].1, Some(a))) =~= s1.instances());
}

/// After `name` is deleted it resolves to nothing, and no storage instance
/// remains for its identifier, so no handle to removed storage is given out.
pub proof fn lemma_no_handle_after_delete(s0: IndexResolver, s1: IndexResolver, name: Seq<char>, u: u128)
    requires
        s0.wf(),
        IndexResolver::deleted(&s0, &s1, name, u),
    ensures
        lookup(s1.entries(), name) is None,
        !holds(s1.instances(), u),
{
    lemma_removed_name_gone(s0.entries(), name);
    let i = index_of(s0.entries(), name);
    s0.lemma_slot_matches(i);
    if holds(s1.instances(), u) {
        let j = choose|j: int| 0 <= j < s1.instances().len() && (#[trigger] s1.instances()[j]).0 == u;
        let j0 = if j < i { j } else { j + 1 };
        assert(s1.instances()[j] == s0.instances()[j0]);
        assert(s0.instances()[i].0 == u);
    }
}

proof fn lemma_push_lookup(es: Seq<(Seq<char>, u128)>, name: Seq<char>, u: u128, other: Seq<char>)
    requires
        names_unique(es),
        !has_name(es, name),
    ensures
        names_unique(es.push((name, u))),
        lookup(es.push((name, u)), name) == Some(u),
        other != name ==> lookup(es.push((name, u)), other) == lookup(es, other),
{
    let ns = es.push((name, u));
    let n = es.len() as int;
    assert forall|a: int, b: int| 0 <= a < ns.len() && 0 <= b < ns.len() && a != b implies (
    #[trigger] ns[a]).0 != (#[trigger] ns[b]).0 by {
        if a < n && b < n {
            assert(ns[a] == es[a] && ns[b] == es[b]);
        } else if a < n {
            assert(ns[a] == es[a]);
        } else {
            assert(ns[b] == es[b]);
        }
    }
    lemma_index_of_unique(ns, n);
    if other != name {
        if has_name(es, other) {
            let j = index_of(es, other);
            lemma_index_of_unique(es, j);
            assert(ns[j] == es[j]);
            lemma_index_of_unique(ns, j);
        }
        if has_name(ns, other) {
            let j = choose|j: int| 0 <= j < ns.len() && (#[trigger] ns[j]).0 == other;
            assert(j < n);
            assert(ns[j] == es[j]);
        }
    }
}

proof fn lemma_remove_lookup(es: Seq<(Seq<char>, u128)>, name: Seq<char>, other: Seq<char>)
    requires
        names_unique(es),
        has_name(es, name),
    ensures
        names_unique(es.remove(index_of(es, name))),
        lookup(es.remove(index_of(es, name)), name) is None,
        other != name ==> lookup(es.remove(index_of(es, name)), other) == lookup(es, other),
{
    lemma_removed_name_gone(es, name);
    let i = index_of(es, name);
    let ns = es.remove(i);
    if other != name {
        if has_name(es, other) {
            let j = index_of(es, other);
            lemma_index_of_unique(es, j);
            let j1 = if j < i { j } else { j - 1 };
            assert(ns[j1] == es[j]);
            lemma_index_of_unique(ns, j1);
        }
        if has_name(ns, other) {
            let j = choose|j: int| 0 <= j < ns.len() && (#[trigger] ns[j]).0 == other;
            let j0 = if j < i { j } else { j + 1 };
            assert(ns[j] == es[j0]);
        }
    }
}

/// A successful creation adds exactly one binding, of `name` to `u`, and
/// leaves every other name bound as before.
pub proof fn lemma_create_adds_one(
    s0: IndexResolver,
    s1: IndexResolver,
    name: Seq<char>,
    u: u128,
    pk: Option<Seq<char>>,
    other: Seq<char>,
)
    requires
        s0.wf(),
        IndexResolver::created(&s0, &s1, name, u, pk),
        other != name,
    ensures
        s1.entries().len() == s0.entries().len() + 1,
        lookup(s1.entries(), name) == Some(u),
        lookup(s1.entries(), other) == lookup(s0.entries(), other),
{
    lemma_push_lookup(s0.entries(), name, u, other);
}

/// A successful deletion removes exactly one binding, that of `name`, and
/// leaves every other name bound as before.
pub proof fn lemma_delete_removes_one(
    s0: IndexResolver,
    s1: IndexResolver,
    name: Seq<char>,
    u: u128,
    other: Seq<char>,
)
    requires
        s0.wf(),
        IndexResolver::deleted(&s0, &s1, name, u),
        other != name,
    ensures
        s1.entries().len() + 1 == s0.entries().len(),
        lookup(s1.entries(), name) is None,
        lookup(s1.entries(), other) == lookup(s0.entries(), other),
{
    lemma_remove_lookup(s0.entries(), name, other);
}

/// `ss` is a run of creations of `name`, one per step: each step either
/// succeeds under `uuids[k]` or fails and changes nothing.
pub open spec fn creations_of(
    ss: Seq<IndexResolver>,
    name: Seq<char>,
    uuids: Seq<u128>,
    pks: Seq<Option<Seq<char>>>,
) -> bool {
    forall|k: int|
        0 <= k < ss.len() - 1 ==> IndexResolver::created(
            &ss[k],
            &(#[trigger] ss[k + 1]),
            name,
            uuids[k],
            pks[k],
        ) || IndexResolver::same(&ss[k], &ss[k + 1])
}

proof fn lemma_name_stays_bound(
    ss: Seq<IndexResolver>,
    name: Seq<char>,
    uuids: Seq<u128>,
    pks: Seq<Option<Seq<char>>>,
    i: int,
    m: int,
)
    requires
        creations_of(ss, name, uuids, pks),
        0 <= i < m < ss.len(),
        IndexResolver::created(&ss[i], &ss[i + 1], name, uuids[i], pks[i]),
    ensures
        has_name(ss[m].entries(), name),
    decreases m - i,
{
    if m == i + 1 {
        assert(ss[m].entries()[ss[i].entries().len() as int].0 == name);
    } else {
        lemma_name_stays_bound(ss, name, uuids, pks, i, m - 1);
        let es = ss[m - 1].entries();
        let k = choose|k: int| 0 <= k < es.len() && (#[trigger] es[k]).0 == name;
        let p = m - 1;
        assert(IndexResolver::created(&ss[p], &ss[p + 1], name, uuids[p], pks[p])
            || IndexResolver::same(&ss[p], &ss[p + 1]));
        assert(ss[m].entries()[k] == es[k]);
    }
}

/// Of any run of creations of one name, at most one succeeds: once one has,
/// every later one fails with `IndexAlreadyExists`, whatever identifier it
/// draws and however its storage allocation goes.
pub proof fn lemma_creations_succeed_once(
    ss: Seq<IndexResolver>,
    name: Seq<char>,
    uuids: Seq<u128>,
    pks: Seq<Option<Seq<char>>>,
    i: int,
    j: int,
    u: u128,
    allocated: bool,
)
    requires
        creations_of(ss, name, uuids, pks),
        0 <= i < j < ss.len(),
        IndexResolver::created(&ss[i], &ss[i + 1], name, uuids[i], pks[i]),
    ensures
        ss[j].create_failure(name, u, allocated) == Some(Code::IndexAlreadyExists),
        j < ss.len() - 1 ==> !IndexResolver::created(&ss[j], &ss[j + 1], name, uuids[j], pks[j]),
{
    lemma_name_stays_bound(ss, name, uuids, pks, i, j);
}

/// The number of creations minus the number of deletions in `kinds`, where
/// `true` stands for a creation and `false` for a deletion.
pub open spec fn net_creations(kinds: Seq<bool>) -> int
    decreases kinds.len(),
{
    if kinds.len() == 0 {
        0
    } else {
        net_creations(kinds.drop_last()) + if kinds.last() {
            1int
        } else {
            -1int
        }
    }
}

/// `ss` is a run of successful operations: step `k` creates `names[k]`
/// under `uuids[k]` when `kinds[k]` holds, and deletes `names[k]`, bound to
/// `uuids[k]`, otherwise.
pub open spec fn creations_and_deletions(
    ss: Seq<IndexResolver>,
    kinds: Seq<bool>,
    names: Seq<Seq<char>>,
    uuids: Seq<u128>,
    pks: Seq<Option<Seq<char>>>,
) -> bool {
    &&& ss.len() == kinds.len() + 1
    &&& forall|k: int|
        0 <= k < kinds.len() ==> if kinds[k] {
            IndexResolver::created(&ss[k], &(#[trigger] ss[k + 1]), names[k], uuids[k], pks[k])
        } else {
            IndexResolver::deleted(&ss[k], &ss[k + 1], names[k], uuids[k])
        }
}

/// No step after step `k` deletes `names[k]`.
pub open spec fn kept_after(kinds: Seq<bool>, names: Seq<Seq<char>>, k: int) -> bool {
    forall|l: int| k < l < kinds.len() ==> kinds[l] || names[l] != names[k]
}

/// No step after step `k` creates `names[k]`.
pub open spec fn gone_after(kinds: Seq<bool>, names: Seq<Seq<char>>, k: int) -> bool {
    forall|l: int| k < l < kinds.len() ==> !kinds[l] || names[l] != names[k]
}

/// After N successful creations and M successful deletions the listing
/// holds exactly N - M more bindings than at the start; a name created and
/// not deleted afterwards is bound to the identifier it was created under,
/// and a name deleted and not created again afterwards is bound to nothing.
pub proof fn lemma_listing_after_creates_and_deletes(
    ss: Seq<IndexResolver>,
    kinds: Seq<bool>,
    names: Seq<Seq<char>>,
    uuids: Seq<u128>,
    pks: Seq<Option<Seq<char>>>,
)
    requires
        ss[0].wf(),
        creations_and_deletions(ss, kinds, names, uuids, pks),
    ensures
        ss.last().entries().len() == ss[0].entries().len() + net_creations(kinds),
        names_unique(ss.last().entries()),
        forall|k: int|
            0 <= k < kinds.len() && kinds[k] && #[trigger] kept_after(kinds, names, k) ==> lookup(
                ss.last().entries(),
                names[k],
            ) == Some(uuids[k]),
        forall|k: int|
            0 <= k < kinds.len() && !kinds[k] && #[trigger] gone_after(kinds, names, k) ==> lookup(
                ss.last().entries(),
                names[k],
            ) is None,
    decreases kinds.len(),
{
    if kinds.len() > 0 {
        let n = kinds.len() - 1;
        let ss0 = ss.drop_last();
        let kinds0 = kinds.drop_last();
        assert forall|k: int| 0 <= k < kinds0.len() implies if kinds0[k] {
            IndexResolver::created(&ss0[k], &(#[trigger] ss0[k + 1]), names[k], uuids[k], pks[k])
        } else {
            IndexResolver::deleted(&ss0[k], &ss0[k + 1], names[k], uuids[k])
        } by {
            assert(ss0[k] == ss[k] && ss0[k + 1] == ss[k + 1]);
        }
        assert(ss0[0] == ss[0]);
        lemma_listing_after_creates_and_deletes(ss0, kinds0, names, uuids, pks);
        assert(ss0.last() == ss[n]);
        assert(ss[n + 1] == ss.last());
        let es = ss[n].entries();
        if kinds[n] {
            assert(IndexResolver::created(&ss[n], &ss[n + 1], names[n], uuids[n], pks[n]));
        } else {
            assert(IndexResolver::deleted(&ss[n], &ss[n + 1], names[n], uuids[n]));
            assert(has_name(es, names[n]));
        }
        assert forall|k: int|
            0 <= k < kinds.len() && kinds[k] && #[trigger] kept_after(kinds, names, k) implies lookup(
                ss.last().entries(),
                names[k],
            ) == Some(uuids[k]) by {
            if kinds[n] {
                lemma_push_lookup(es, names[n], uuids[n], names[k]);
                if k < n {
                    assert(kept_after(kinds0, names, k));
                }
            } else {
                lemma_remove_lookup(es, names[n], names[k]);
                assert(kept_after(kinds0, names, k));
            }
        }
        assert forall|k: int|
            0 <= k < kinds.len() && !kinds[k] && #[trigger] gone_after(kinds, names, k) implies lookup(
                ss.last().entries(),
                names[k],
            ) is None by {
            if kinds[n] {
                lemma_push_lookup(es, names[n], uuids[n], names[k]);
                assert(gone_after(kinds0, names, k));
            } else {
                lemma_remove_lookup(es, names[n], names[k]);
                if k < n {
                    assert(gone_after(kinds0, names, k));
                }
            }
        }
        if kinds[n] {
            lemma_push_lookup(es, names[n], uuids[n], names[n]);
        } else {
            lemma_remove_lookup(es, names[n], names[n]);
        }
    } else {
        assert(ss.last() == ss[0]);
    }
}

} // verus!
