use vstd::prelude::*;

use crate::error::IndexResolverError;

verus! {

/// What an optional primary key holds, as characters.
pub open spec fn key_view(k: Option<String>) -> Option<Seq<char>> {
    match k {
        Some(s) => Some(s@),
        None => None,
    }
}

/// Whether some instance of `is` has the identifier `u`.
pub open spec fn holds(is: Seq<(u128, Option<Seq<char>>)>, u: u128) -> bool {
    exists|i: int| 0 <= i < is.len() && (#[trigger] is[i]).0 == u
}

/// The position of the instance with identifier `u`, when there is one.
pub open spec fn slot_of(is: Seq<(u128, Option<Seq<char>>)>, u: u128) -> int {
    choose|i: int| 0 <= i < is.len() && (#[trigger] is[i]).0 == u
}

/// No two instances share an identifier.
pub open spec fn slots_unique(is: Seq<(u128, Option<Seq<char>>)>) -> bool {
    forall|i: int, j: int|
        0 <= i < is.len() && 0 <= j < is.len() && i != j ==> (#[trigger] is[i]).0 != (#[trigger] is[j]).0
}

/// With unique identifiers, the instance found by identifier is the one at `i`.
pub proof fn lemma_slot_of_unique(is: Seq<(u128, Option<Seq<char>>)>, i: int)
    requires
        slots_unique(is),
        0 <= i < is.len(),
    ensures
        holds(is, is[i].0),
        slot_of(is, is[i].0) == i,
{
    assert(holds(is, is[i].0));
}

/// One storage instance and the primary key recorded for it.
pub struct Instance {
    pub uuid: u128,
    pub primary_key: Option<String>,
}

/// The storage instances that exist, each under its own identifier.
pub struct HandleStore {
    instances: Vec<Instance>,
}

impl HandleStore {
    /// Each instance as its identifier and recorded primary key.
    pub closed spec fn instances(&self) -> Seq<(u128, Option<Seq<char>>)> {
        self.instances@.map_values(|x: Instance| (x.uuid, key_view(x.primary_key)))
    }

    pub open spec fn wf(&self) -> bool {
        slots_unique(self.instances())
    }

    pub fn new() -> (r: Self)
        ensures
            r.wf(),
            r.instances() == Seq::<(u128, Option<Seq<char>>)>::empty(),
    {
        let r = HandleStore { instances: Vec::new() };
        assert(r.instances() =~= Seq::<(u128, Option<Seq<char>>)>::empty());
        r
    }

    /// The position of the instance with identifier `uuid`.
    pub fn position(&self, uuid: u128) -> (r: Option<usize>)
        ensures
            match r {
                Some(i) => i < self.instances().len() && self.instances()[i as int].0 == uuid,
                None => !holds(self.instances(), uuid),
            },
    {
        let mut i: usize = 0;
        while i < self.instances.len()
            invariant
                i <= self.instances@.len(),
                forall|j: int| 0 <= j < i ==> (#[trigger] self.instances()[j]).0 != uuid,
            decreases self.instances@.len() - i,
        {
            if self.instances[i].uuid == uuid {
                return Some(i);
            }
            i = i + 1;
        }
        None
    }

    /// Records a new, empty instance for `uuid`, given how allocating its
    /// on-disk resources went. A failed allocation changes nothing.
    pub fn create(&mut self, uuid: u128, allocation: Result<(), String>) -> (r: Result<
        (),
        IndexResolverError,
    >)
        requires
            old(self).wf(),
            !holds(old(self).instances(), uuid),
        ensures
            final(self).wf(),
            match allocation {
                Ok(()) => {
                    &&& r is Ok
                    &&& final(self).instances() == old(self).instances().push((uuid, None))
                },
                Err(cause) => {
                    &&& r == Err::<(), IndexResolverError>(IndexResolverError::Internal(cause))
                    &&& final(self).instances() == old(self).instances()
                },
            },
    {
        match allocation {
            Ok(()) => {
                let ghost is = self.instances();
                self.instances.push(Instance { uuid, primary_key: None });
                assert(self.instances() =~= is.push((uuid, None)));
                assert forall|a: int, b: int|
                    0 <= a < self.instances().len() && 0 <= b < self.instances().len() && a != b
                        implies (#[trigger] self.instances()[a]).0 != (
                    #[trigger] self.instances()[b]).0 by {
                    if a < is.len() && b < is.len() {
                        assert(self.instances()[a] == is[a]);
                        assert(self.instances()[b] == is[b]);
                    } else if a < is.len() {
                        assert(self.instances()[a] == is[a]);
                    } else {
                        assert(self.instances()[b] == is[b]);
                    }
                }
                Ok(())
            },
            Err(cause) => Err(IndexResolverError::Internal(cause)),
        }
    }

    /// Closes and removes the instance of `uuid`.
    pub fn delete(&mut self, uuid: u128)
        requires
            old(self).wf(),
            holds(old(self).instances(), uuid),
        ensures
            final(self).wf(),
            final(self).instances() == old(self).instances().remove(
                slot_of(old(self).instances(), uuid),
            ),
    {
        let i = self.position(uuid).unwrap();
        let ghost is = self.instances();
        proof {
            lemma_slot_of_unique(is, i as int);
        }
        self.instances.remove(i);
        assert(self.instances() =~= is.remove(i as int));
        assert forall|a: int, b: int|
            0 <= a < self.instances().len() && 0 <= b < self.instances().len() && a != b
                implies (#[trigger] self.instances()[a]).0 != (#[trigger] self.instances()[b]).0 by {
            let a0 = if a < i { a } else { a + 1 };
            let b0 = if b < i { b } else { b + 1 };
            assert(self.instances()[a] == is[a0]);
            assert(self.instances()[b] == is[b0]);
        }
    }

    /// The primary key recorded for the instance of `uuid`.
    pub fn primary_key(&self, uuid: u128) -> (r: Option<String>)
        requires
            self.wf(),
            holds(self.instances(), uuid),
        ensures
            key_view(r) == self.instances()[slot_of(self.instances(), uuid)].1,
    {
        let i = self.position(uuid).unwrap();
        proof {
            lemma_slot_of_unique(self.instances(), i as int);
        }
        self.instances[i].primary_key.clone()
    }

    /// Records `key` as the primary key of the instance of `uuid`.
    pub fn record_primary_key(&mut self, uuid: u128, key: String)
        requires
            old(self).wf(),
            holds(old(self).instances(), uuid),
        ensures
            final(self).wf(),
            final(self).instances() == old(self).instances().update(
                slot_of(old(self).instances(), uuid),
                (uuid, Some(key@)),
            ),
    {
        let i = self.position(uuid).unwrap();
        let ghost is = self.instances();
        proof {
            lemma_slot_of_unique(is, i as int);
        }
        self.instances[i] = Instance { uuid, primary_key: Some(key) };
        assert(self.instances() =~= is.update(i as int, (uuid, Some(key@))));
        assert forall|a: int, b: int|
            0 <= a < self.instances().len() && 0 <= b < self.instances().len() && a != b
                implies (#[trigger] self.instances()[a]).0 != (#[trigger] self.instances()[b]).0 by {
            assert(self.instances()[a].0 == is[a].0);
            assert(self.instances()[b].0 == is[b].0);
        }
    }
}

} // verus!
