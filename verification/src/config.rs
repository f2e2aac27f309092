//! The configuration store: provider and model records that the store's
//! caller keeps beside the conversation log. Plain CRUD over two reference
//! tables — no synchronization, no derived state. Records get monotonically
//! increasing numeric ids, as rows of an auto-increment table do; a model
//! names its provider by id, and that reference is checked when the model is
//! added (a deleted provider leaves its models dangling, which readers see
//! as `NotFound`).

use vstd::prelude::*;
use crate::errors::StoreError;

verus! {

/// A language-model provider: where to reach it and how to authenticate.
pub struct Provider {
    pub name: String,
    pub endpoint: String,
    pub api_key: String,
}

/// A model offered by a provider.
pub struct ModelDef {
    pub name: String,
    pub model: String,
    pub provider_id: u64,
}

/// The mathematical value of a `Provider`.
pub struct ProviderV {
    pub name: Seq<char>,
    pub endpoint: Seq<char>,
    pub api_key: Seq<char>,
}

/// The mathematical value of a `ModelDef`.
pub struct ModelDefV {
    pub name: Seq<char>,
    pub model: Seq<char>,
    pub provider_id: u64,
}

impl View for Provider {
    type V = ProviderV;

    open spec fn view(&self) -> ProviderV {
        ProviderV { name: self.name@, endpoint: self.endpoint@, api_key: self.api_key@ }
    }
}

impl View for ModelDef {
    type V = ModelDefV;

    open spec fn view(&self) -> ModelDefV {
        ModelDefV { name: self.name@, model: self.model@, provider_id: self.provider_id }
    }
}

impl Clone for Provider {
    fn clone(&self) -> (r: Provider)
        ensures
            r@ == self@,
    {
        Provider {
            name: self.name.clone(),
            endpoint: self.endpoint.clone(),
            api_key: self.api_key.clone(),
        }
    }
}

impl Clone for ModelDef {
    fn clone(&self) -> (r: ModelDef)
        ensures
            r@ == self@,
    {
        ModelDef {
            name: self.name.clone(),
            model: self.model.clone(),
            provider_id: self.provider_id,
        }
    }
}

/// The two reference tables, with their id counters.
pub struct ConfigStore {
    providers: Vec<(u64, Provider)>,
    models: Vec<(u64, ModelDef)>,
    next_provider_id: u64,
    next_model_id: u64,
}

spec fn ids_below<T>(rows: Seq<(u64, T)>, bound: u64) -> bool {
    forall|i: int| 0 <= i < rows.len() ==> (#[trigger] rows[i]).0 < bound
}

spec fn ids_unique<T>(rows: Seq<(u64, T)>) -> bool {
    forall|i: int, j: int|
        0 <= i < j < rows.len() ==> (#[trigger] rows[i]).0 != (#[trigger] rows[j]).0
}

impl ConfigStore {
    /// The configuration store's invariant: every id was handed out by the
    /// counters, and no id names two rows of one table.
    pub closed spec fn wf(self) -> bool {
        &&& ids_below(self.providers@, self.next_provider_id)
        &&& ids_unique(self.providers@)
        &&& ids_below(self.models@, self.next_model_id)
        &&& ids_unique(self.models@)
    }

    /// A provider row with id `id` exists.
    pub closed spec fn has_provider(self, id: u64) -> bool {
        exists|i: int| 0 <= i < self.providers@.len() && (#[trigger] self.providers@[i]).0 == id
    }

    spec fn provider_index(self, id: u64) -> int {
        choose|i: int| 0 <= i < self.providers@.len() && (#[trigger] self.providers@[i]).0 == id
    }

    /// The provider row with id `id` (meaningful when `has_provider(id)`).
    pub closed spec fn provider_at(self, id: u64) -> ProviderV {
        self.providers@[self.provider_index(id)].1@
    }

    /// A model row with id `id` exists.
    pub closed spec fn has_model(self, id: u64) -> bool {
        exists|i: int| 0 <= i < self.models@.len() && (#[trigger] self.models@[i]).0 == id
    }

    spec fn model_index(self, id: u64) -> int {
        choose|i: int| 0 <= i < self.models@.len() && (#[trigger] self.models@[i]).0 == id
    }

    /// The model row with id `id` (meaningful when `has_model(id)`).
    pub closed spec fn model_at(self, id: u64) -> ModelDefV {
        self.models@[self.model_index(id)].1@
    }

    /// Room remains in the provider-id counter; false only after the
    /// counter has handed out every id the machine can represent.
    pub closed spec fn can_add_provider(self) -> bool {
        self.next_provider_id < u64::MAX
    }

    /// Room remains in the model-id counter.
    pub closed spec fn can_add_model(self) -> bool {
        self.next_model_id < u64::MAX
    }

    /// Creates an empty configuration store.
    pub fn new() -> (s: ConfigStore)
        ensures
            s.wf(),
            forall|id: u64| !s.has_provider(id),
            forall|id: u64| !s.has_model(id),
    {
        ConfigStore { providers: Vec::new(), models: Vec::new(), next_provider_id: 0, next_model_id: 0 }
    }

    fn find_provider(&self, id: u64) -> (r: Option<usize>)
        ensures
            match r {
                Some(i) => i < self.providers@.len() && self.providers@[i as int].0 == id,
                None => !self.has_provider(id),
            },
    {
        let mut i: usize = 0;
        while i < self.providers.len()
            invariant
                i <= self.providers@.len(),
                forall|j: int| 0 <= j < i ==> (#[trigger] self.providers@[j]).0 != id,
            decreases self.providers@.len() - i,
        {
            if self.providers[i].0 == id {
                return Some(i);
            }
            i = i + 1;
        }
        None
    }

    fn find_model(&self, id: u64) -> (r: Option<usize>)
        ensures
            match r {
                Some(i) => i < self.models@.len() && self.models@[i as int].0 == id,
                None => !self.has_model(id),
            },
    {
        let mut i: usize = 0;
        while i < self.models.len()
            invariant
                i <= self.models@.len(),
                forall|j: int| 0 <= j < i ==> (#[trigger] self.models@[j]).0 != id,
            decreases self.models@.len() - i,
        {
            if self.models[i].0 == id {
                return Some(i);
            }
            i = i + 1;
        }
        None
    }

    proof fn lemma_same_providers(a: ConfigStore, b: ConfigStore)
        requires
            a.providers@ == b.providers@,
        ensures
            forall|id: u64| #[trigger] a.has_provider(id) == b.has_provider(id),
            forall|id: u64|
                a.has_provider(id) ==> #[trigger] a.provider_at(id) == b.provider_at(id),
    {
        assert forall|id: u64| #[trigger] a.has_provider(id) == b.has_provider(id) by {
            if a.has_provider(id) {
                let i = a.provider_index(id);
                assert(0 <= i < a.providers@.len() && a.providers@[i].0 == id);
                assert(b.providers@[i].0 == id);
            }
            if b.has_provider(id) {
                let i = b.provider_index(id);
                assert(0 <= i < b.providers@.len() && b.providers@[i].0 == id);
                assert(a.providers@[i].0 == id);
            }
        }
        assert forall|id: u64|
            a.has_provider(id) implies #[trigger] a.provider_at(id) == b.provider_at(id) by {
            let i = a.provider_index(id);
            assert(0 <= i < a.providers@.len() && a.providers@[i].0 == id);
            let j = b.provider_index(id);
            assert(b.providers@[i].0 == id);
            assert(0 <= j < b.providers@.len() && b.providers@[j].0 == id);
            assert(a.providers@[j].0 == id);
        }
    }

    proof fn lemma_same_models(a: ConfigStore, b: ConfigStore)
        requires
            a.models@ == b.models@,
        ensures
            forall|id: u64| #[trigger] a.has_model(id) == b.has_model(id),
            forall|id: u64| a.has_model(id) ==> #[trigger] a.model_at(id) == b.model_at(id),
    {
        assert forall|id: u64| #[trigger] a.has_model(id) == b.has_model(id) by {
            if a.has_model(id) {
                let i = a.model_index(id);
                assert(0 <= i < a.models@.len() && a.models@[i].0 == id);
                assert(b.models@[i].0 == id);
            }
            if b.has_model(id) {
                let i = b.model_index(id);
                assert(0 <= i < b.models@.len() && b.models@[i].0 == id);
                assert(a.models@[i].0 == id);
            }
        }
        assert forall|id: u64|
            a.has_model(id) implies #[trigger] a.model_at(id) == b.model_at(id) by {
            let i = a.model_index(id);
            assert(0 <= i < a.models@.len() && a.models@[i].0 == id);
            let j = b.model_index(id);
            assert(b.models@[i].0 == id);
            assert(0 <= j < b.models@.len() && b.models@[j].0 == id);
            assert(a.models@[j].0 == id);
        }
    }

    /// Adds a provider under a fresh id and returns that id: success is
    /// owed whenever the id counter is not exhausted. Fails with
    /// `StorageFailure` only on exhaustion, leaving the store untouched.
    pub fn add_provider(&mut self, p: Provider) -> (r: Result<u64, StoreError>)
        requires
            old(self).wf(),
        ensures
            final(self).wf(),
            r is Ok <==> old(self).can_add_provider(),
            forall|id2: u64| #[trigger] final(self).has_model(id2) == old(self).has_model(id2),
            forall|id2: u64|
                old(self).has_model(id2) ==> #[trigger] final(self).model_at(id2) == old(self).model_at(id2),
            match r {
                Ok(id) => {
                    &&& !old(self).has_provider(id)
                    &&& final(self).has_provider(id)
                    &&& final(self).provider_at(id) == p@
                    &&& forall|id2: u64|
                        id2 != id ==> #[trigger] final(self).has_provider(id2) == old(self).has_provider(id2)
                    &&& forall|id2: u64|
                        id2 != id && old(self).has_provider(id2) ==> #[trigger] final(self).provider_at(id2) == old(self).provider_at(id2)
                },
                Err(e) => e == StoreError::StorageFailure && *final(self) == *old(self),
            },
    {
        let id = self.next_provider_id;
        if id == u64::MAX {
            return Err(StoreError::StorageFailure);
        }
        self.next_provider_id = id + 1;
        let ghost rows0 = self.providers@;
        self.providers.push((id, p));
        proof {
            Self::lemma_same_models(*self, *old(self));
            let n: int = rows0.len() as int;
            assert(self.providers@[n].0 == id);
            assert(self.has_provider(id));
            assert(forall|i: int| 0 <= i < n ==> (#[trigger] self.providers@[i]) == rows0[i]);
            assert(forall|i: int| 0 <= i < n ==> (#[trigger] rows0[i]).0 < id);
            let w = self.provider_index(id);
            assert(0 <= w < self.providers@.len() && self.providers@[w].0 == id);
            assert(w == n);
            assert(self.provider_at(id) == p@);
            assert forall|id2: u64| id2 != id implies #[trigger] self.has_provider(id2) == old(self).has_provider(id2) by {
                if old(self).has_provider(id2) {
                    let i = old(self).provider_index(id2);
                    assert(0 <= i < rows0.len() && rows0[i].0 == id2);
                    assert(self.providers@[i].0 == id2);
                }
                if self.has_provider(id2) {
                    let i = self.provider_index(id2);
                    assert(0 <= i < self.providers@.len() && self.providers@[i].0 == id2);
                    assert(i != n);
                    assert(rows0[i].0 == id2);
                }
            }
            assert forall|id2: u64|
                id2 != id && old(self).has_provider(id2) implies #[trigger] final(self).provider_at(id2) == old(self).provider_at(id2) by {
                let i = old(self).provider_index(id2);
                assert(0 <= i < rows0.len() && rows0[i].0 == id2);
                assert(self.providers@[i].0 == id2);
                assert(self.has_provider(id2));
                let j = self.provider_index(id2);
                assert(0 <= j < self.providers@.len() && self.providers@[j].0 == id2);
                assert(j != n);
                if i != j {
                    assert(rows0[i].0 == rows0[j].0);
                    assert(false);
                }
            }
        }
        Ok(id)
    }

    /// Reads the provider with id `id`. Fails with `NotFound` exactly when
    /// no provider has that id.
    pub fn get_provider(&self, id: u64) -> (r: Result<Provider, StoreError>)
        requires
            self.wf(),
        ensures
            r is Ok <==> self.has_provider(id),
            match r {
                Ok(p) => p@ == self.provider_at(id),
                Err(e) => e == StoreError::NotFound,
            },
    {
        match self.find_provider(id) {
            Some(i) => {
                proof {
                    assert(self.providers@[i as int].0 == id);
                    assert(self.has_provider(id));
                    let w = self.provider_index(id);
                    assert(0 <= w < self.providers@.len() && self.providers@[w].0 == id);
                    if w != i {
                        assert(false);
                    }
                }
                Ok(self.providers[i].1.clone())
            },
            None => Err(StoreError::NotFound),
        }
    }

    /// Removes the provider with id `id`. Fails with `NotFound` exactly when
    /// no provider has that id. Models referencing the removed provider are
    /// left in place; readers of such a model find its provider `NotFound`.
    pub fn delete_provider(&mut self, id: u64) -> (r: Result<(), StoreError>)
        requires
            old(self).wf(),
        ensures
            final(self).wf(),
            r is Ok <==> old(self).has_provider(id),
            forall|id2: u64| #[trigger] final(self).has_model(id2) == old(self).has_model(id2),
            match r {
                Ok(()) => {
                    &&& !final(self).has_provider(id)
                    &&& forall|id2: u64|
                        id2 != id ==> #[trigger] final(self).has_provider(id2) == old(self).has_provider(id2)
                    &&& forall|id2: u64|
                        id2 != id && old(self).has_provider(id2) ==> #[trigger] final(self).provider_at(id2) == old(self).provider_at(id2)
                },
                Err(e) => e == StoreError::NotFound && *final(self) == *old(self),
            },
    {
        match self.find_provider(id) {
            None => Err(StoreError::NotFound),
            Some(pos) => {
                proof {
                    assert(old(self).providers@[pos as int].0 == id);
                    assert(old(self).has_provider(id));
                }
                let ghost rows0 = self.providers@;
                self.providers.remove(pos);
                proof {
                    Self::lemma_same_models(*self, *old(self));
                    assert forall|i: int|
                        0 <= i < self.providers@.len() implies (#[trigger] self.providers@[i])
                        == (if i < pos {
                        rows0[i]
                    } else {
                        rows0[i + 1]
                    }) by {}
                    assert forall|i: int|
                        0 <= i < self.providers@.len() implies (#[trigger] self.providers@[i]).0
                        != id by {
                        let oi: int = if i < pos { i } else { i + 1 };
                        if rows0[oi].0 == id {
                            assert(rows0[oi].0 == rows0[pos as int].0);
                            assert(false);
                        }
                    }
                    assert(!self.has_provider(id));
                    assert forall|id2: u64| id2 != id implies #[trigger] self.has_provider(id2)
                        == old(self).has_provider(id2) by {
                        if old(self).has_provider(id2) {
                            let i = old(self).provider_index(id2);
                            assert(0 <= i < rows0.len() && rows0[i].0 == id2);
                            assert(i != pos);
                            if i < pos {
                                assert(self.providers@[i].0 == id2);
                            } else {
                                assert(self.providers@[i - 1].0 == id2);
                            }
                        }
                        if self.has_provider(id2) {
                            let i = self.provider_index(id2);
                            assert(0 <= i < self.providers@.len() && self.providers@[i].0 == id2);
                            let oi: int = if i < pos { i } else { i + 1 };
                            assert(rows0[oi].0 == id2);
                        }
                    }
                    assert forall|id2: u64|
                        id2 != id && old(self).has_provider(id2) implies #[trigger] final(self).provider_at(id2) == old(self).provider_at(id2) by {
                        let i = old(self).provider_index(id2);
                        assert(0 <= i < rows0.len() && rows0[i].0 == id2);
                        assert(i != pos);
                        let ni: int = if i < pos { i } else { i - 1 };
                        assert(self.providers@[ni].0 == id2);
                        assert(self.has_provider(id2));
                        let j = self.provider_index(id2);
                        assert(0 <= j < self.providers@.len() && self.providers@[j].0 == id2);
                        if ni != j {
                            assert(self.providers@[ni].0 == self.providers@[j].0);
                            assert(false);
                        }
                    }
                }
                Ok(())
            },
        }
    }

    /// Adds a model under a fresh id and returns that id: success is owed
    /// whenever the named provider exists and the id counter is not
    /// exhausted. The provider reference is checked at insertion: fails
    /// with `NotFound` when that provider does not exist, and with
    /// `StorageFailure` on counter exhaustion; either failure leaves the
    /// store untouched.
    pub fn add_model(&mut self, m: ModelDef) -> (r: Result<u64, StoreError>)
        requires
            old(self).wf(),
        ensures
            final(self).wf(),
            r is Ok <==> (old(self).has_provider(m.provider_id) && old(self).can_add_model()),
            forall|id2: u64|
                #[trigger] final(self).has_provider(id2) == old(self).has_provider(id2),
            forall|id2: u64|
                old(self).has_provider(id2) ==> #[trigger] final(self).provider_at(id2) == old(self).provider_at(id2),
            match r {
                Ok(id) => {
                    &&& old(self).has_provider(m.provider_id)
                    &&& !old(self).has_model(id)
                    &&& final(self).has_model(id)
                    &&& final(self).model_at(id) == m@
                    &&& forall|id2: u64|
                        id2 != id ==> #[trigger] final(self).has_model(id2) == old(self).has_model(id2)
                    &&& forall|id2: u64|
                        id2 != id && old(self).has_model(id2) ==> #[trigger] final(self).model_at(id2) == old(self).model_at(id2)
                },
                Err(e) => *final(self) == *old(self) && (if !old(self).has_provider(
                    m.provider_id,
                ) {
                    e == StoreError::NotFound
                } else {
                    e == StoreError::StorageFailure
                }),
            },
    {
        match self.find_provider(m.provider_id) {
            None => {
                return Err(StoreError::NotFound);
            },
            Some(i) => {
                proof {
                    assert(self.providers@[i as int].0 == m.provider_id);
                    assert(self.has_provider(m.provider_id));
                }
            },
        }
        let id = self.next_model_id;
        if id == u64::MAX {
            return Err(StoreError::StorageFailure);
        }
        self.next_model_id = id + 1;
        let ghost rows0 = self.models@;
        self.models.push((id, m));
        proof {
            Self::lemma_same_providers(*self, *old(self));
            let n: int = rows0.len() as int;
            assert(self.models@[n].0 == id);
            assert(self.has_model(id));
            assert(forall|i: int| 0 <= i < n ==> (#[trigger] self.models@[i]) == rows0[i]);
            assert(forall|i: int| 0 <= i < n ==> (#[trigger] rows0[i]).0 < id);
            let w = self.model_index(id);
            assert(0 <= w < self.models@.len() && self.models@[w].0 == id);
            assert(w == n);
            assert(self.model_at(id) == m@);
            assert forall|id2: u64| id2 != id implies #[trigger] self.has_model(id2) == old(self).has_model(id2) by {
                if old(self).has_model(id2) {
                    let i2 = old(self).model_index(id2);
                    assert(0 <= i2 < rows0.len() && rows0[i2].0 == id2);
                    assert(self.models@[i2].0 == id2);
                }
                if self.has_model(id2) {
                    let i2 = self.model_index(id2);
                    assert(0 <= i2 < self.models@.len() && self.models@[i2].0 == id2);
                    assert(i2 != n);
                    assert(rows0[i2].0 == id2);
                }
            }
            assert forall|id2: u64|
                id2 != id && old(self).has_model(id2) implies #[trigger] final(self).model_at(
                id2,
            ) == old(self).model_at(id2) by {
                let i2 = old(self).model_index(id2);
                assert(0 <= i2 < rows0.len() && rows0[i2].0 == id2);
                assert(self.models@[i2].0 == id2);
                assert(self.has_model(id2));
                let j = self.model_index(id2);
                assert(0 <= j < self.models@.len() && self.models@[j].0 == id2);
                assert(j != n);
                if i2 != j {
                    assert(rows0[i2].0 == rows0[j].0);
                    assert(false);
                }
            }
        }
        Ok(id)
    }

    /// Reads the model with id `id`. Fails with `NotFound` exactly when no
    /// model has that id.
    pub fn get_model(&self, id: u64) -> (r: Result<ModelDef, StoreError>)
        requires
            self.wf(),
        ensures
            r is Ok <==> self.has_model(id),
            match r {
                Ok(m) => m@ == self.model_at(id),
                Err(e) => e == StoreError::NotFound,
            },
    {
        match self.find_model(id) {
            Some(i) => {
                proof {
                    assert(self.models@[i as int].0 == id);
                    assert(self.has_model(id));
                    let w = self.model_index(id);
                    assert(0 <= w < self.models@.len() && self.models@[w].0 == id);
                    if w != i {
                        assert(false);
                    }
                }
                Ok(self.models[i].1.clone())
            },
            None => Err(StoreError::NotFound),
        }
    }
}

impl ConfigStore {
    /// Replaces the provider record with id `id`, keeping the id. Fails
    /// with `NotFound` exactly when no provider has that id, leaving the
    /// store untouched.
    pub fn update_provider(&mut self, id: u64, p: Provider) -> (r: Result<(), StoreError>)
        requires
            old(self).wf(),
        ensures
            final(self).wf(),
            r is Ok <==> old(self).has_provider(id),
            forall|id2: u64|
                #[trigger] final(self).has_provider(id2) == old(self).has_provider(id2),
            forall|id2: u64| #[trigger] final(self).has_model(id2) == old(self).has_model(id2),
            forall|id2: u64|
                old(self).has_model(id2) ==> #[trigger] final(self).model_at(id2) == old(self).model_at(id2),
            match r {
                Ok(()) => final(self).provider_at(id) == p@ && (forall|id2: u64|
                    id2 != id && old(self).has_provider(id2) ==> #[trigger] final(self).provider_at(id2) == old(self).provider_at(id2)),
                Err(e) => e == StoreError::NotFound && *final(self) == *old(self),
            },
    {
        match self.find_provider(id) {
            None => Err(StoreError::NotFound),
            Some(pos) => {
                proof {
                    assert(old(self).providers@[pos as int].0 == id);
                    assert(old(self).has_provider(id));
                }
                let ghost rows0 = self.providers@;
                self.providers.set(pos, (id, p));
                proof {
                    Self::lemma_same_models(*self, *old(self));
                    assert(self.providers@.len() == rows0.len());
                    assert forall|i: int|
                        0 <= i < self.providers@.len() implies (#[trigger] self.providers@[i]).0
                        == rows0[i].0 by {
                        if i != pos {
                            assert(self.providers@[i] == rows0[i]);
                        }
                    }
                    assert forall|id2: u64| #[trigger] self.has_provider(id2) == old(self).has_provider(id2) by {
                        if old(self).has_provider(id2) {
                            let i = old(self).provider_index(id2);
                            assert(0 <= i < rows0.len() && rows0[i].0 == id2);
                            assert(self.providers@[i].0 == id2);
                        }
                        if self.has_provider(id2) {
                            let i = self.provider_index(id2);
                            assert(0 <= i < self.providers@.len() && self.providers@[i].0 == id2);
                            assert(rows0[i].0 == id2);
                        }
                    }
                    let w = self.provider_index(id);
                    assert(self.providers@[pos as int].0 == id);
                    assert(self.has_provider(id));
                    assert(0 <= w < self.providers@.len() && self.providers@[w].0 == id);
                    if w != pos {
                        assert(self.providers@[w].0 == self.providers@[pos as int].0);
                        assert(false);
                    }
                    assert(self.provider_at(id) == p@);
                    assert forall|id2: u64|
                        id2 != id && old(self).has_provider(id2) implies #[trigger] final(self).provider_at(id2) == old(self).provider_at(id2) by {
                        let i = old(self).provider_index(id2);
                        assert(0 <= i < rows0.len() && rows0[i].0 == id2);
                        assert(i != pos);
                        assert(self.providers@[i] == rows0[i]);
                        let j = self.provider_index(id2);
                        assert(0 <= j < self.providers@.len() && self.providers@[j].0 == id2);
                        if i != j {
                            assert(self.providers@[i].0 == self.providers@[j].0);
                            assert(false);
                        }
                    }
                }
                Ok(())
            },
        }
    }

    /// Replaces the model record with id `id`, keeping the id; the new
    /// provider reference is checked as on insertion. Fails with `NotFound`
    /// exactly when no model has that id or the named provider does not
    /// exist, leaving the store untouched.
    pub fn update_model(&mut self, id: u64, m: ModelDef) -> (r: Result<(), StoreError>)
        requires
            old(self).wf(),
        ensures
            final(self).wf(),
            r is Ok <==> (old(self).has_model(id) && old(self).has_provider(m.provider_id)),
            forall|id2: u64| #[trigger] final(self).has_model(id2) == old(self).has_model(id2),
            forall|id2: u64|
                #[trigger] final(self).has_provider(id2) == old(self).has_provider(id2),
            forall|id2: u64|
                old(self).has_provider(id2) ==> #[trigger] final(self).provider_at(id2) == old(self).provider_at(id2),
            match r {
                Ok(()) => final(self).model_at(id) == m@ && (forall|id2: u64|
                    id2 != id && old(self).has_model(id2) ==> #[trigger] final(self).model_at(
                        id2,
                    ) == old(self).model_at(id2)),
                Err(e) => e == StoreError::NotFound && *final(self) == *old(self),
            },
    {
        let pos = match self.find_model(id) {
            None => {
                return Err(StoreError::NotFound);
            },
            Some(pos) => pos,
        };
        proof {
            assert(old(self).models@[pos as int].0 == id);
            assert(old(self).has_model(id));
        }
        match self.find_provider(m.provider_id) {
            None => {
                return Err(StoreError::NotFound);
            },
            Some(i) => {
                proof {
                    assert(self.providers@[i as int].0 == m.provider_id);
                    assert(self.has_provider(m.provider_id));
                }
            },
        }
        let ghost rows0 = self.models@;
        self.models.set(pos, (id, m));
        proof {
            Self::lemma_same_providers(*self, *old(self));
            assert(self.models@.len() == rows0.len());
            assert forall|i: int|
                0 <= i < self.models@.len() implies (#[trigger] self.models@[i]).0
                == rows0[i].0 by {
                if i != pos {
                    assert(self.models@[i] == rows0[i]);
                }
            }
            assert forall|id2: u64| #[trigger] self.has_model(id2) == old(self).has_model(
                id2,
            ) by {
                if old(self).has_model(id2) {
                    let i = old(self).model_index(id2);
                    assert(0 <= i < rows0.len() && rows0[i].0 == id2);
                    assert(self.models@[i].0 == id2);
                }
                if self.has_model(id2) {
                    let i = self.model_index(id2);
                    assert(0 <= i < self.models@.len() && self.models@[i].0 == id2);
                    assert(rows0[i].0 == id2);
                }
            }
            let w = self.model_index(id);
            assert(self.models@[pos as int].0 == id);
            assert(self.has_model(id));
            assert(0 <= w < self.models@.len() && self.models@[w].0 == id);
            if w != pos {
                assert(self.models@[w].0 == self.models@[pos as int].0);
                assert(false);
            }
            assert(self.model_at(id) == m@);
            assert forall|id2: u64|
                id2 != id && old(self).has_model(id2) implies #[trigger] final(self).model_at(
                id2,
            ) == old(self).model_at(id2) by {
                let i = old(self).model_index(id2);
                assert(0 <= i < rows0.len() && rows0[i].0 == id2);
                assert(i != pos);
                assert(self.models@[i] == rows0[i]);
                let j = self.model_index(id2);
                assert(0 <= j < self.models@.len() && self.models@[j].0 == id2);
                if i != j {
                    assert(self.models@[i].0 == self.models@[j].0);
                    assert(false);
                }
            }
        }
        Ok(())
    }

    /// Removes the model with id `id`. Fails with `NotFound` exactly when
    /// no model has that id, leaving the store untouched.
    pub fn delete_model(&mut self, id: u64) -> (r: Result<(), StoreError>)
        requires
            old(self).wf(),
        ensures
            final(self).wf(),
            r is Ok <==> old(self).has_model(id),
            forall|id2: u64|
                #[trigger] final(self).has_provider(id2) == old(self).has_provider(id2),
            forall|id2: u64|
                old(self).has_provider(id2) ==> #[trigger] final(self).provider_at(id2) == old(self).provider_at(id2),
            match r {
                Ok(()) => {
                    &&& !final(self).has_model(id)
                    &&& forall|id2: u64|
                        id2 != id ==> #[trigger] final(self).has_model(id2) == old(self).has_model(id2)
                    &&& forall|id2: u64|
                        id2 != id && old(self).has_model(id2) ==> #[trigger] final(self).model_at(id2) == old(self).model_at(id2)
                },
                Err(e) => e == StoreError::NotFound && *final(self) == *old(self),
            },
    {
        match self.find_model(id) {
            None => Err(StoreError::NotFound),
            Some(pos) => {
                proof {
                    assert(old(self).models@[pos as int].0 == id);
                    assert(old(self).has_model(id));
                }
                let ghost rows0 = self.models@;
                self.models.remove(pos);
                proof {
                    Self::lemma_same_providers(*self, *old(self));
                    assert forall|i: int|
                        0 <= i < self.models@.len() implies (#[trigger] self.models@[i]) == (
                    if i < pos {
                        rows0[i]
                    } else {
                        rows0[i + 1]
                    }) by {}
                    assert forall|i: int|
                        0 <= i < self.models@.len() implies (#[trigger] self.models@[i]).0
                        != id by {
                        let oi: int = if i < pos { i } else { i + 1 };
                        if rows0[oi].0 == id {
                            assert(rows0[oi].0 == rows0[pos as int].0);
                            assert(false);
                        }
                    }
                    assert(!self.has_model(id));
                    assert forall|id2: u64| id2 != id implies #[trigger] self.has_model(id2)
                        == old(self).has_model(id2) by {
                        if old(self).has_model(id2) {
                            let i = old(self).model_index(id2);
                            assert(0 <= i < rows0.len() && rows0[i].0 == id2);
                            assert(i != pos);
                            if i < pos {
                                assert(self.models@[i].0 == id2);
                            } else {
                                assert(self.models@[i - 1].0 == id2);
                            }
                        }
                        if self.has_model(id2) {
                            let i = self.model_index(id2);
                            assert(0 <= i < self.models@.len() && self.models@[i].0 == id2);
                            let oi: int = if i < pos { i } else { i + 1 };
                            assert(rows0[oi].0 == id2);
                        }
                    }
                    assert forall|id2: u64|
                        id2 != id && old(self).has_model(id2) implies #[trigger] final(self).model_at(id2) == old(self).model_at(id2) by {
                        let i = old(self).model_index(id2);
                        assert(0 <= i < rows0.len() && rows0[i].0 == id2);
                        assert(i != pos);
                        let ni: int = if i < pos { i } else { i - 1 };
                        assert(self.models@[ni].0 == id2);
                        assert(self.has_model(id2));
                        let j = self.model_index(id2);
                        assert(0 <= j < self.models@.len() && self.models@[j].0 == id2);
                        if ni != j {
                            assert(self.models@[ni].0 == self.models@[j].0);
                            assert(false);
                        }
                    }
                }
                Ok(())
            },
        }
    }
}

} // verus!