use vstd::prelude::*;

use crate::error::IndexResolverError;

verus! {

/// Whether some entry of `es` is named `n`.
pub open spec fn has_name(es: Seq<(Seq<char>, u128)>, n: Seq<char>) -> bool {
    exists|i: int| 0 <= i < es.len() && (#[trigger] es[i]).0 == n
}

/// Whether some entry of `es` holds the identifier `u`.
pub open spec fn has_uuid(es: Seq<(Seq<char>, u128)>, u: u128) -> bool {
    exists|i: int| 0 <= i < es.len() && (#[trigger] es[i]).1 == u
}

/// The position of the entry named `n`, when there is one.
pub open spec fn index_of(es: Seq<(Seq<char>, u128)>, n: Seq<char>) -> int {
    choose|i: int| 0 <= i < es.len() && (#[trigger] es[i]).0 == n
}

/// The identifier bound to `n`, if any.
pub open spec fn lookup(es: Seq<(Seq<char>, u128)>, n: Seq<char>) -> Option<u128> {
    if has_name(es, n) {
        Some(es[index_of(es, n)].1)
    } else {
        None
    }
}

/// No two entries share a name.
pub open spec fn names_unique(es: Seq<(Seq<char>, u128)>) -> bool {
    forall|i: int, j: int|
        0 <= i < es.len() && 0 <= j < es.len() && i != j ==> (#[trigger] es[i]).0 != (#[trigger] es[j]).0
}

/// No two entries share an identifier.
pub open spec fn uuids_unique(es: Seq<(Seq<char>, u128)>) -> bool {
    forall|i: int, j: int|
        0 <= i < es.len() && 0 <= j < es.len() && i != j ==> (#[trigger] es[i]).1 != (#[trigger] es[j]).1
}

/// In a registry with unique names, the entry found by name is the one at `i`.
pub proof fn lemma_index_of_unique(es: Seq<(Seq<char>, u128)>, i: int)
    requires
        names_unique(es),
        0 <= i < es.len(),
    ensures
        has_name(es, es[i].0),
        index_of(es, es[i].0) == i,
        lookup(es, es[i].0) == Some(es[i].1),
{
    assert(has_name(es, es[i].0));
}

/// One binding of a name to an identifier.
pub struct RegistryEntry {
    pub name: String,
    pub uuid: u128,
}

/// The mapping from index names to identifiers. It also remembers every
/// identifier it has released, so that none is ever bound twice.
pub struct UuidRegistry {
    entries: Vec<RegistryEntry>,
    retired: Vec<u128>,
}

impl UuidRegistry {
    /// The bindings, in the order in which they were made.
    pub closed spec fn entries(&self) -> Seq<(Seq<char>, u128)> {
        self.entries@.map_values(|e: RegistryEntry| (e.name@, e.uuid))
    }

    /// The identifiers released by removals, oldest first.
    pub closed spec fn retired(&self) -> Seq<u128> {
        self.retired@
    }

    /// Whether `u` is bound now or was bound before.
    pub open spec fn used(&self, u: u128) -> bool {
        has_uuid(self.entries(), u) || self.retired().contains(u)
    }

    /// Names and identifiers are unique, and no released identifier is bound.
    pub open spec fn wf(&self) -> bool {
        &&& names_unique(self.entries())
        &&& uuids_unique(self.entries())
        &&& forall|u: u128| self.retired().contains(u) ==> !has_uuid(self.entries(), u)
    }

    pub fn new() -> (r: Self)
        ensures
            r.wf(),
            r.entries() == Seq::<(Seq<char>, u128)>::empty(),
            r.retired() == Seq::<u128>::empty(),
    {
        let r = UuidRegistry { entries: Vec::new(), retired: Vec::new() };
        assert(r.entries() =~= Seq::<(Seq<char>, u128)>::empty());
        r
    }

    pub fn len(&self) -> (r: usize)
        ensures
            r == self.entries().len(),
    {
        self.entries.len()
    }

    /// The position of the entry named `name`.
    pub fn position(&self, name: &str) -> (r: Option<usize>)
        ensures
            match r {
                Some(i) => i < self.entries().len() && self.entries()[i as int].0 == name@,
                None => !has_name(self.entries(), name@),
            },
    {
        let key = name.to_owned();
        let mut i: usize = 0;
        while i < self.entries.len()
            invariant
                key@ == name@,
                i <= self.entries@.len(),
                forall|j: int| 0 <= j < i ==> (#[trigger] self.entries()[j]).0 != name@,
            decreases self.entries@.len() - i,
        {
            if self.entries[i].name == key {
                return Some(i);
            }
            i = i + 1;
        }
        None
    }

    /// Whether `uuid` is bound now or was bound before.
    pub fn is_used(&self, uuid: u128) -> (r: bool)
        ensures
            r == self.used(uuid),
    {
        let mut i: usize = 0;
        while i < self.entries.len()
            invariant
                i <= self.entries@.len(),
                forall|j: int| 0 <= j < i ==> (#[trigger] self.entries()[j]).1 != uuid,
            decreases self.entries@.len() - i,
        {
            if self.entries[i].uuid == uuid {
                assert(self.entries()[i as int].1 == uuid);
                return true;
            }
            i = i + 1;
        }
        let mut k: usize = 0;
        while k < self.retired.len()
            invariant
                k <= self.retired@.len(),
                !has_uuid(self.entries(), uuid),
                forall|j: int| 0 <= j < k ==> self.retired@[j] != uuid,
            decreases self.retired@.len() - k,
        {
            if self.retired[k] == uuid {
                assert(self.retired()[k as int] == uuid);
                return true;
            }
            k = k + 1;
        }
        false
    }

    /// Binds `name` to `uuid`. Fails when the name is taken, or when the
    /// identifier is bound now or was bound before; nothing changes then.
    pub fn insert(&mut self, name: &str, uuid: u128) -> (r: Result<(), IndexResolverError>)
        requires
            old(self).wf(),
        ensures
            final(self).wf(),
            has_name(old(self).entries(), name@) ==> (r matches Err(
                IndexResolverError::IndexAlreadyExists(n),
            ) && n@ == name@),
            !has_name(old(self).entries(), name@) && old(self).used(uuid) ==> r == Err::<
                (),
                IndexResolverError,
            >(IndexResolverError::UuidAlreadyExists(uuid)),
            !has_name(old(self).entries(), name@) && !old(self).used(uuid) ==> r is Ok,
            r is Ok ==> final(self).entries() == old(self).entries().push((name@, uuid)),
            r is Err ==> final(self).entries() == old(self).entries(),
            final(self).retired() == old(self).retired(),
    {
        if self.position(name).is_some() {
            return Err(IndexResolverError::IndexAlreadyExists(name.to_owned()));
        }
        if self.is_used(uuid) {
            return Err(IndexResolverError::UuidAlreadyExists(uuid));
        }
        let ghost es = self.entries();
        self.entries.push(RegistryEntry { name: name.to_owned(), uuid });
        assert(self.entries() =~= es.push((name@, uuid)));
        assert forall|u: u128| self.retired().contains(u) implies !has_uuid(self.entries(), u) by {
            if has_uuid(self.entries(), u) {
                let j = choose|j: int| 0 <= j < self.entries().len() && (#[trigger] self.entries()[j]).1 == u;
                if j < es.len() {
                    assert(es[j] == self.entries()[j]);
                }
            }
        }
        Ok(())
    }

    /// The identifier bound to `name`.
    pub fn get(&self, name: &str) -> (r: Result<u128, IndexResolverError>)
        requires
            self.wf(),
        ensures
            match lookup(self.entries(), name@) {
                Some(u) => r == Ok::<u128, IndexResolverError>(u),
                None => r matches Err(IndexResolverError::UnexistingIndex(n)) && n@ == name@,
            },
    {
        match self.position(name) {
            Some(i) => {
                proof {
                    lemma_index_of_unique(self.entries(), i as int);
                }
                Ok(self.entries[i].uuid)
            },
            None => Err(IndexResolverError::UnexistingIndex(name.to_owned())),
        }
    }

    /// Unbinds `name` and returns the identifier it held, which is then
    /// retired for good.
    pub fn remove(&mut self, name: &str) -> (r: Result<u128, IndexResolverError>)
        requires
            old(self).wf(),
        ensures
            final(self).wf(),
            match lookup(old(self).entries(), name@) {
                Some(u) => {
                    &&& r == Ok::<u128, IndexResolverError>(u)
                    &&& final(self).entries() == old(self).entries().remove(
                        index_of(old(self).entries(), name@),
                    )
                    &&& final(self).retired() == old(self).retired().push(u)
                },
                None => {
                    &&& r matches Err(IndexResolverError::UnexistingIndex(n)) && n@ == name@
                    &&& final(self).entries() == old(self).entries()
                    &&& final(self).retired() == old(self).retired()
                },
            },
    {
        match self.position(name) {
            Some(i) => {
                let ghost es = self.entries();
                proof {
                    lemma_index_of_unique(es, i as int);
                }
                let entry = self.entries.remove(i);
                let u = entry.uuid;
                self.retired.push(u);
                assert(self.entries() =~= es.remove(i as int));
                assert forall|a: int, b: int|
                    0 <= a < self.entries().len() && 0 <= b < self.entries().len() && a != b
                        implies (#[trigger] self.entries()[a]).0 != (#[trigger] self.entries()[b]).0
                        && self.entries()[a].1 != self.entries()[b].1 by {
                    let a0 = if a < i { a } else { a + 1 };
                    let b0 = if b < i { b } else { b + 1 };
                    assert(self.entries()[a] == es[a0]);
                    assert(self.entries()[b] == es[b0]);
                }
                assert forall|v: u128| self.retired().contains(v) implies !has_uuid(
                    self.entries(),
                    v,
                ) by {
                    if has_uuid(self.entries(), v) {
                        let j = choose|j: int|
                            0 <= j < self.entries().len() && (#[trigger] self.entries()[j]).1 == v;
                        let j0 = if j < i { j } else { j + 1 };
                        assert(self.entries()[j] == es[j0]);
                        if v == u {
                            assert(es[i as int].1 == u);
                        } else {
                            assert(self.retired().last() == u);
                            assert(old(self).retired().contains(v)) by {
                                let k = choose|k: int|
                                    0 <= k < self.retired().len() && self.retired()[k] == v;
                                assert(k < old(self).retired().len());
                                assert(old(self).retired()[k] == v);
                            }
                        }
                    }
                }
                Ok(u)
            },
            None => Err(IndexResolverError::UnexistingIndex(name.to_owned())),
        }
    }

    /// Binds the identifier of `old_name` to `new_name` instead, in one step.
    pub fn rename(&mut self, old_name: &str, new_name: &str) -> (r: Result<(), IndexResolverError>)
        requires
            old(self).wf(),
        ensures
            final(self).wf(),
            final(self).retired() == old(self).retired(),
            !has_name(old(self).entries(), old_name@) ==> (r matches Err(
                IndexResolverError::UnexistingIndex(n),
            ) && n@ == old_name@),
            has_name(old(self).entries(), old_name@) && has_name(old(self).entries(), new_name@)
                ==> (r matches Err(IndexResolverError::IndexAlreadyExists(n)) && n@ == new_name@),
            has_name(old(self).entries(), old_name@) && !has_name(old(self).entries(), new_name@)
                ==> r is Ok,
            r is Ok ==> final(self).entries() == old(self).entries().update(
                index_of(old(self).entries(), old_name@),
                (new_name@, old(self).entries()[index_of(old(self).entries(), old_name@)].1),
            ),
            r is Err ==> final(self).entries() == old(self).entries(),
    {
        let i = match self.position(old_name) {
            Some(i) => i,
            None => {
                return Err(IndexResolverError::UnexistingIndex(old_name.to_owned()));
            },
        };
        if self.position(new_name).is_some() {
            return Err(IndexResolverError::IndexAlreadyExists(new_name.to_owned()));
        }
        let ghost es = self.entries();
        proof {
            lemma_index_of_unique(es, i as int);
        }
        let u = self.entries[i].uuid;
        self.entries[i] = RegistryEntry { name: new_name.to_owned(), uuid: u };
        assert(self.entries() =~= es.update(i as int, (new_name@, u)));
        assert forall|a: int, b: int|
            0 <= a < self.entries().len() && 0 <= b < self.entries().len() && a != b
                implies (#[trigger] self.entries()[a]).0 != (#[trigger] self.entries()[b]).0
                && self.entries()[a].1 != self.entries()[b].1 by {
            if a != i && b != i {
                assert(self.entries()[a] == es[a]);
                assert(self.entries()[b] == es[b]);
            } else if a == i {
                assert(self.entries()[b] == es[b]);
            } else {
                assert(self.entries()[a] == es[a]);
            }
        }
        assert forall|v: u128| self.retired().contains(v) implies !has_uuid(self.entries(), v) by {
            if has_uuid(self.entries(), v) {
                let j = choose|j: int| 0 <= j < self.entries().len() && (#[trigger] self.entries()[j]).1 == v;
                assert(es[j].1 == v);
                assert(has_uuid(es, v));
                assert(self.retired() == old(self).retired());
            }
        }
        Ok(())
    }

    /// Every binding, in the order in which they were made.
    pub fn list(&self) -> (r: Vec<(String, u128)>)
        ensures
            r@.len() == self.entries().len(),
            forall|i: int|
                0 <= i < r@.len() ==> (#[trigger] r@[i]).0@ == self.entries()[i].0 && r@[i].1
                    == self.entries()[i].1,
    {
        let mut out: Vec<(String, u128)> = Vec::new();
        let mut i: usize = 0;
        while i < self.entries.len()
            invariant
                i <= self.entries@.len(),
                out@.len() == i,
                forall|j: int|
                    0 <= j < i ==> (#[trigger] out@[j]).0@ == self.entries()[j].0 && out@[j].1
                        == self.entries()[j].1,
            decreases self.entries@.len() - i,
        {
            let e = &self.entries[i];
            out.push((e.name.clone(), e.uuid));
            i = i + 1;
        }
        out
    }

    /// The identifier of the entry at position `i`.
    pub fn get_at(&self, i: usize) -> (r: u128)
        requires
            i < self.entries().len(),
        ensures
            r == self.entries()[i as int].1,
    {
        self.entries[i].uuid
    }
}

} // verus!
