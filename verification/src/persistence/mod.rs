//! The persistence store: an in-memory relational store holding the five
//! tables of the engine — services, deployments, logs, resources and secrets
//! — with the query and update semantics the engine relies on.

pub mod address;
pub mod clock;
pub mod deployment;
pub mod error;
pub mod fields;
pub mod ident;
pub mod log;
pub mod resource;
pub mod secret;
pub mod service;
pub mod state;

pub use address::Address;
pub use clock::Timestamp;
pub use deployment::{Deployment, DeploymentRunnable, DeploymentState};
pub use error::PersistenceError;
pub use fields::{fields_eqv, FieldEntry, FieldObject, FieldValue, Fields};
pub use ident::Id;
pub use log::{log_eqv, Level as LogLevel, Log};
pub use resource::{resource_eqv, Resource, Type as ResourceType};
pub use secret::{secret_models, Secret, SecretModel};
pub use service::Service;
pub use state::State;

use vstd::prelude::*;

use crate::deploy_layer;
use crate::deploy_layer::LogType;
use crate::sorting::{
    lemma_stable_sort_elements, sort_pairs, stable_sort_by_key,
};
use crate::strutil::{
    lemma_lex_lt_trans, lemma_lex_order, lex_le, lex_lt, str_eq, str_le,
};

verus! {

/// The mathematical content of the store: one sequence per table, each in
/// insertion order.
pub struct StoreModel {
    pub services: Seq<Service>,
    pub deployments: Seq<Deployment>,
    pub logs: Seq<Log>,
    pub resources: Seq<Resource>,
    pub secrets: Seq<Secret>,
}

/// The first deployment row carrying `id`.
pub open spec fn find_deployment(s: Seq<Deployment>, id: Id) -> Option<Deployment>
    decreases s.len(),
{
    if s.len() == 0 {
        None
    } else if s[0].id == id {
        Some(s[0])
    } else {
        find_deployment(s.skip(1), id)
    }
}

pub open spec fn has_deployment(s: Seq<Deployment>, id: Id) -> bool {
    find_deployment(s, id) is Some
}

/// The first deployment of `service_id` that is `Running`.
pub open spec fn find_active(s: Seq<Deployment>, service_id: Id) -> Option<Deployment>
    decreases s.len(),
{
    if s.len() == 0 {
        None
    } else if s[0].service_id == service_id && s[0].state == State::Running {
        Some(s[0])
    } else {
        find_active(s.skip(1), service_id)
    }
}

/// The first service row carrying `id`.
pub open spec fn find_service_by_id(s: Seq<Service>, id: Id) -> Option<Service>
    decreases s.len(),
{
    if s.len() == 0 {
        None
    } else if s[0].id == id {
        Some(s[0])
    } else {
        find_service_by_id(s.skip(1), id)
    }
}

/// The first service row named `name`.
pub open spec fn find_service_by_name(s: Seq<Service>, name: Seq<char>) -> Option<Service>
    decreases s.len(),
{
    if s.len() == 0 {
        None
    } else if s[0].name@ == name {
        Some(s[0])
    } else {
        find_service_by_name(s.skip(1), name)
    }
}

/// The deployments of one service, in insertion order.
pub open spec fn deployments_for(s: Seq<Deployment>, service_id: Id) -> Seq<Deployment> {
    s.filter(|d: Deployment| d.service_id == service_id)
}

/// The service rows left after deleting `id`.
pub open spec fn services_without(s: Seq<Service>, id: Id) -> Seq<Service> {
    s.filter(|svc: Service| svc.id != id)
}

/// How a state log rewrites the deployment table: the row carrying its id
/// takes the log's state, time and address; every other row is untouched.
pub open spec fn update_rows(s: Seq<Deployment>, st: DeploymentState) -> Seq<Deployment> {
    s.map_values(
        |d: Deployment|
            if d.id == st.id {
                Deployment {
                    id: d.id,
                    service_id: d.service_id,
                    state: st.state,
                    last_update: st.last_update,
                    address: st.address,
                }
            } else {
                d
            },
    )
}

/// How startup cleanup rewrites a row: transient states become `Stopped`;
/// `Running` and terminal rows are untouched.
pub open spec fn cleaned_row(d: Deployment) -> Deployment {
    if d.state.spec_is_transient() {
        Deployment {
            id: d.id,
            service_id: d.service_id,
            state: State::Stopped,
            last_update: d.last_update,
            address: d.address,
        }
    } else {
        d
    }
}

pub open spec fn cleaned_rows(s: Seq<Deployment>) -> Seq<Deployment> {
    s.map_values(|d: Deployment| cleaned_row(d))
}

/// Well-formedness of a secrets table: sorted by key, one row per
/// `(service_id, key)`.
pub open spec fn secrets_wf(ms: Seq<SecretModel>) -> bool {
    &&& forall|i: int, j: int|
        0 <= i < j < ms.len() ==> lex_le((#[trigger] ms[i]).key, (#[trigger] ms[j]).key)
    &&& forall|i: int, j: int|
        0 <= i < j < ms.len() ==> !((#[trigger] ms[i]).service_id == (#[trigger] ms[j]).service_id
            && ms[i].key == ms[j].key)
}

/// Well-formedness of a resources table: one row per `(service_id, kind)`.
pub open spec fn resources_wf(s: Seq<Resource>) -> bool {
    forall|i: int, j: int|
        0 <= i < j < s.len() ==> !((#[trigger] s[i]).service_id == (#[trigger] s[j]).service_id
            && s[i].kind == s[j].kind)
}

/// Store invariant: deployment ids are unique, secrets are sorted and keyed
/// uniquely, resources are keyed uniquely.
pub open spec fn store_wf(m: StoreModel) -> bool {
    &&& forall|i: int, j: int|
        0 <= i < j < m.deployments.len() ==> (#[trigger] m.deployments[i]).id
            != (#[trigger] m.deployments[j]).id
    &&& secrets_wf(secret_models(m.secrets))
    &&& resources_wf(m.resources)
}

/// The persistence store. All state transitions of the engine flow through
/// it; a single writer mutates it while readers query it.
pub struct Persistence {
    services: Vec<Service>,
    deployments: Vec<Deployment>,
    logs: Vec<Log>,
    resources: Vec<Resource>,
    secrets: Vec<Secret>,
}

impl View for Persistence {
    type V = StoreModel;

    closed spec fn view(&self) -> StoreModel {
        StoreModel {
            services: self.services@,
            deployments: self.deployments@,
            logs: self.logs@,
            resources: self.resources@,
            secrets: self.secrets@,
        }
    }
}

impl Persistence {
    pub open spec fn wf(&self) -> bool {
        store_wf(self@)
    }

    /// A fresh store with every table empty.
    pub fn new() -> (r: Persistence)
        ensures
            r@.services == Seq::<Service>::empty(),
            r@.deployments == Seq::<Deployment>::empty(),
            r@.logs == Seq::<Log>::empty(),
            r@.resources == Seq::<Resource>::empty(),
            r@.secrets == Seq::<Secret>::empty(),
            r.wf(),
    {
        let r = Persistence {
            services: Vec::new(),
            deployments: Vec::new(),
            logs: Vec::new(),
            resources: Vec::new(),
            secrets: Vec::new(),
        };
        proof {
            assert(secret_models(r@.secrets) =~= Seq::<SecretModel>::empty());
        }
        r
    }

    /// Inserts a deployment row; fails if and only if the id collides with
    /// an existing row.
    pub fn insert_deployment(&mut self, deployment: Deployment) -> (r: Result<
        (),
        PersistenceError,
    >)
        ensures
            old(self).wf() ==> final(self).wf(),
            match r {
                Ok(()) => !has_deployment(old(self)@.deployments, deployment.id) && final(self)@
                    == (StoreModel {
                    deployments: old(self)@.deployments.push(deployment),
                    ..old(self)@
                }),
                Err(e) => e == PersistenceError::DuplicateId && has_deployment(
                    old(self)@.deployments,
                    deployment.id,
                ) && final(self)@ == old(self)@,
            },
    {
        if self.find_deployment_row(deployment.id).is_some() {
            return Err(PersistenceError::DuplicateId);
        }
        proof {
            let s = self@.deployments;
            assert forall|i: int| 0 <= i < s.len() implies (#[trigger] s[i]).id != deployment.id by {
                lemma_find_deployment_some(s, deployment.id, i);
            }
        }
        self.deployments.push(deployment);
        Ok(())
    }

    /// The row carrying `id`, if any.
    pub fn get_deployment(&self, id: Id) -> (r: Option<Deployment>)
        ensures
            r == find_deployment(self@.deployments, id),
    {
        self.find_deployment_row(id)
    }

    fn find_deployment_row(&self, id: Id) -> (r: Option<Deployment>)
        ensures
            r == find_deployment(self@.deployments, id),
    {
        let ghost s = self@.deployments;
        let n = self.deployments.len();
        let mut i: usize = 0;
        proof {
            assert(s.skip(0) =~= s);
        }
        while i < n
            invariant
                n == s.len(),
                i <= n,
                s == self@.deployments,
                find_deployment(s, id) == find_deployment(s.skip(i as int), id),
            decreases n - i,
        {
            proof {
                assert(s.skip(i as int)[0] == s[i as int]);
                assert(s.skip(i as int).skip(1) =~= s.skip(i + 1));
            }
            let d = self.deployments[i];
            if d.id == id {
                return Some(d);
            }
            i = i + 1;
        }
        None
    }

    /// Every deployment of `service_id`, in insertion order.
    pub fn get_deployments(&self, service_id: Id) -> (r: Vec<Deployment>)
        ensures
            r@ == deployments_for(self@.deployments, service_id),
    {
        let ghost s = self@.deployments;
        let n = self.deployments.len();
        let mut r: Vec<Deployment> = Vec::new();
        let mut i: usize = 0;
        proof {
            reveal(Seq::filter);
            assert(s.take(0) =~= Seq::<Deployment>::empty());
            assert(r@ =~= deployments_for(s.take(0), service_id));
        }
        while i < n
            invariant
                n == s.len(),
                i <= n,
                s == self@.deployments,
                r@ == deployments_for(s.take(i as int), service_id),
            decreases n - i,
        {
            let d = self.deployments[i];
            proof {
                reveal(Seq::filter);
                assert(s.take(i + 1).drop_last() =~= s.take(i as int));
                assert(s.take(i + 1).last() == s[i as int]);
                assert(deployments_for(s.take(i + 1), service_id) == if s[i as int].service_id
                    == service_id {
                    deployments_for(s.take(i as int), service_id).push(s[i as int])
                } else {
                    deployments_for(s.take(i as int), service_id)
                });
            }
            if d.service_id == service_id {
                r.push(d);
            }
            i = i + 1;
        }
        proof {
            assert(s.take(n as int) =~= s);
        }
        r
    }

    /// The running deployment of a service, if one is recorded.
    pub fn get_active_deployment(&self, service_id: Id) -> (r: Option<Deployment>)
        ensures
            r == find_active(self@.deployments, service_id),
    {
        let ghost s = self@.deployments;
        let n = self.deployments.len();
        let mut i: usize = 0;
        proof {
            assert(s.skip(0) =~= s);
        }
        while i < n
            invariant
                n == s.len(),
                i <= n,
                s == self@.deployments,
                find_active(s, service_id) == find_active(s.skip(i as int), service_id),
            decreases n - i,
        {
            proof {
                assert(s.skip(i as int)[0] == s[i as int]);
                assert(s.skip(i as int).skip(1) =~= s.skip(i + 1));
            }
            let d = self.deployments[i];
            if d.service_id == service_id && matches!(d.state, State::Running) {
                return Some(d);
            }
            i = i + 1;
        }
        None
    }

    /// Applies a state log to the deployment table: the row carrying the
    /// log's id takes its state, time and address; a row that does not exist
    /// is not created.
    pub fn update_deployment(&mut self, state: DeploymentState)
        ensures
            old(self).wf() ==> final(self).wf(),
            final(self)@ == (StoreModel {
                deployments: update_rows(old(self)@.deployments, state),
                ..old(self)@
            }),
    {
        let ghost s = self@.deployments;
        let n = self.deployments.len();
        let mut i: usize = 0;
        while i < n
            invariant
                n == s.len(),
                i <= n,
                self.deployments@.len() == n,
                forall|j: int| 0 <= j < i ==> self.deployments@[j] == update_rows(s, state)[j],
                forall|j: int| i <= j < n ==> self.deployments@[j] == s[j],
                self@.services == old(self)@.services,
                self@.logs == old(self)@.logs,
                self@.resources == old(self)@.resources,
                self@.secrets == old(self)@.secrets,
                s == old(self)@.deployments,
            decreases n - i,
        {
            let d = self.deployments[i];
            if d.id == state.id {
                let updated = Deployment {
                    id: d.id,
                    service_id: d.service_id,
                    state: state.state,
                    last_update: state.last_update,
                    address: state.address,
                };
                let ghost pre = self.deployments@;
                self.deployments.remove(i);
                self.deployments.insert(i, updated);
                proof {
                    assert(self.deployments@ =~= pre.update(i as int, updated));
                }
            }
            i = i + 1;
        }
        proof {
            assert(self.deployments@ =~= update_rows(s, state));
            if old(self).wf() {
                assert forall|i: int, j: int|
                    0 <= i < j < update_rows(s, state).len() implies (#[trigger] update_rows(
                    s,
                    state,
                )[i]).id != (#[trigger] update_rows(s, state)[j]).id by {
                    assert(update_rows(s, state)[i].id == s[i].id);
                    assert(update_rows(s, state)[j].id == s[j].id);
                }
            }
        }
    }

    /// Rewrites every transient row to `Stopped`; called once at startup
    /// before any worker begins. `Running` and terminal rows are untouched,
    /// and afterwards no row is transient.
    pub fn cleanup_invalid_states(&mut self)
        ensures
            old(self).wf() ==> final(self).wf(),
            final(self)@ == (StoreModel {
                deployments: cleaned_rows(old(self)@.deployments),
                ..old(self)@
            }),
            forall|i: int|
                0 <= i < final(self)@.deployments.len()
                    ==> !(#[trigger] final(self)@.deployments[i]).state.spec_is_transient(),
    {
        let ghost s = self@.deployments;
        let n = self.deployments.len();
        let mut i: usize = 0;
        while i < n
            invariant
                n == s.len(),
                i <= n,
                self.deployments@.len() == n,
                forall|j: int| 0 <= j < i ==> self.deployments@[j] == cleaned_rows(s)[j],
                forall|j: int| i <= j < n ==> self.deployments@[j] == s[j],
                self@.services == old(self)@.services,
                self@.logs == old(self)@.logs,
                self@.resources == old(self)@.resources,
                self@.secrets == old(self)@.secrets,
                s == old(self)@.deployments,
            decreases n - i,
        {
            let d = self.deployments[i];
            if d.state.is_transient() {
                let updated = Deployment {
                    id: d.id,
                    service_id: d.service_id,
                    state: State::Stopped,
                    last_update: d.last_update,
                    address: d.address,
                };
                let ghost pre = self.deployments@;
                self.deployments.remove(i);
                self.deployments.insert(i, updated);
                proof {
                    assert(self.deployments@ =~= pre.update(i as int, updated));
                }
            }
            i = i + 1;
        }
        proof {
            assert(self.deployments@ =~= cleaned_rows(s));
            if old(self).wf() {
                assert forall|i: int, j: int|
                    0 <= i < j < cleaned_rows(s).len() implies (#[trigger] cleaned_rows(s)[i]).id
                    != (#[trigger] cleaned_rows(s)[j]).id by {
                    assert(cleaned_rows(s)[i].id == s[i].id);
                    assert(cleaned_rows(s)[j].id == s[j].id);
                }
            }
        }
    }

    /// The service named `name`, created with a fresh id on first use.
    pub fn get_or_create_service(&mut self, name: &str) -> (r: Service)
        ensures
            old(self).wf() ==> final(self).wf(),
            match find_service_by_name(old(self)@.services, name@) {
                Some(svc) => r == svc && final(self)@ == old(self)@,
                None => r.name@ == name@ && !r.id.spec_is_nil() && final(self)@ == (StoreModel {
                    services: old(self)@.services.push(r),
                    ..old(self)@
                }),
            },
    {
        match self.get_service_by_name(name) {
            Some(svc) => svc,
            None => {
                let svc = Service { id: Id::fresh(), name: name.to_owned() };
                let r = svc.dup();
                self.services.push(svc);
                r
            },
        }
    }

    /// The service named `name`, if any.
    pub fn get_service_by_name(&self, name: &str) -> (r: Option<Service>)
        ensures
            r == find_service_by_name(self@.services, name@),
    {
        let ghost s = self@.services;
        let n = self.services.len();
        let mut i: usize = 0;
        proof {
            assert(s.skip(0) =~= s);
        }
        while i < n
            invariant
                n == s.len(),
                i <= n,
                s == self@.services,
                find_service_by_name(s, name@) == find_service_by_name(s.skip(i as int), name@),
            decreases n - i,
        {
            proof {
                assert(s.skip(i as int)[0] == s[i as int]);
                assert(s.skip(i as int).skip(1) =~= s.skip(i + 1));
            }
            if str_eq(self.services[i].name.as_str(), name) {
                return Some(self.services[i].dup());
            }
            i = i + 1;
        }
        None
    }

    /// Deletes every service row carrying `id`.
    pub fn delete_service(&mut self, id: Id)
        ensures
            old(self).wf() ==> final(self).wf(),
            final(self)@ == (StoreModel {
                services: services_without(old(self)@.services, id),
                ..old(self)@
            }),
    {
        let ghost s = self@.services;
        let n = self.services.len();
        let mut kept: Vec<Service> = Vec::new();
        let mut i: usize = 0;
        proof {
            reveal(Seq::filter);
            assert(s.take(0) =~= Seq::<Service>::empty());
            assert(kept@ =~= services_without(s.take(0), id));
        }
        while i < n
            invariant
                n == s.len(),
                i <= n,
                s == self@.services,
                kept@ == services_without(s.take(i as int), id),
            decreases n - i,
        {
            proof {
                reveal(Seq::filter);
                assert(s.take(i + 1).drop_last() =~= s.take(i as int));
                assert(s.take(i + 1).last() == s[i as int]);
                assert(services_without(s.take(i + 1), id) == if s[i as int].id != id {
                    services_without(s.take(i as int), id).push(s[i as int])
                } else {
                    services_without(s.take(i as int), id)
                });
            }
            if self.services[i].id != id {
                kept.push(self.services[i].dup());
            }
            i = i + 1;
        }
        proof {
            assert(s.take(n as int) =~= s);
        }
        self.services = kept;
    }

    /// Every service row, in insertion order.
    pub fn get_all_services(&self) -> (r: Vec<Service>)
        ensures
            r@ == self@.services,
    {
        let ghost s = self@.services;
        let n = self.services.len();
        let mut r: Vec<Service> = Vec::new();
        let mut i: usize = 0;
        while i < n
            invariant
                n == s.len(),
                i <= n,
                s == self@.services,
                r@ == s.take(i as int),
            decreases n - i,
        {
            r.push(self.services[i].dup());
            proof {
                assert(s.take(i + 1) =~= s.take(i as int).push(s[i as int]));
            }
            i = i + 1;
        }
        proof {
            assert(s.take(n as int) =~= s);
        }
        r
    }

    /// Appends a log row as given.
    pub fn insert_log(&mut self, log: Log)
        ensures
            old(self).wf() ==> final(self).wf(),
            final(self)@ == (StoreModel { logs: old(self)@.logs.push(log), ..old(self)@ }),
    {
        self.logs.push(log);
    }
}

/// If a deployment is found, every row is visible to the search: a found id
/// really occurs, and a miss means no row carries it.
pub proof fn lemma_find_deployment_some(s: Seq<Deployment>, id: Id, i: int)
    requires
        0 <= i < s.len(),
        find_deployment(s, id) is None,
    ensures
        s[i].id != id,
    decreases i,
{
    if s.len() > 0 && s[0].id != id {
        if i > 0 {
            assert(s.skip(1)[i - 1] == s[i]);
            lemma_find_deployment_some(s.skip(1), id, i - 1);
        }
    }
}


/// At most one row of the table is keyed `(service_id, key)`.
pub open spec fn secret_key_unique(r: Seq<SecretModel>, service_id: Id, key: Seq<char>) -> bool {
    forall|i: int, j: int|
        (0 <= i < r.len() && 0 <= j < r.len() && (#[trigger] r[i]).service_id == service_id
            && r[i].key == key && (#[trigger] r[j]).service_id == service_id && r[j].key == key)
            ==> i == j
}

/// The first secret of `(service_id, key)`.
pub open spec fn find_secret(ms: Seq<SecretModel>, service_id: Id, key: Seq<char>) -> Option<
    SecretModel,
>
    decreases ms.len(),
{
    if ms.len() == 0 {
        None
    } else if ms[0].service_id == service_id && ms[0].key == key {
        Some(ms[0])
    } else {
        find_secret(ms.skip(1), service_id, key)
    }
}

/// How writing a secret rewrites the table: an existing `(service_id, key)`
/// row is replaced in place; a new row is placed after every key at most its
/// own, keeping the table sorted.
pub open spec fn upsert_secret_model(ms: Seq<SecretModel>, m: SecretModel) -> Seq<SecretModel>
    decreases ms.len(),
{
    if ms.len() == 0 {
        seq![m]
    } else if ms[0].service_id == m.service_id && ms[0].key == m.key {
        seq![m] + ms.skip(1)
    } else if lex_lt(m.key, ms[0].key) {
        seq![m] + ms
    } else {
        seq![ms[0]] + upsert_secret_model(ms.skip(1), m)
    }
}

/// The secrets of one service, in key order when the table is sorted.
pub open spec fn secrets_for(ms: Seq<SecretModel>, service_id: Id) -> Seq<SecretModel> {
    ms.filter(|x: SecretModel| x.service_id == service_id)
}

/// Strict-then-non-strict transitivity of key order.
proof fn lemma_lex_lt_le_trans(a: Seq<char>, b: Seq<char>, c: Seq<char>)
    requires
        lex_lt(a, b),
        lex_le(b, c),
    ensures
        lex_lt(a, c),
{
    if b == c {
    } else {
        lemma_lex_lt_trans(a, b, c);
    }
}

/// Every row of an upserted table is the new row or one of the old rows.
proof fn lemma_upsert_secret_elements(ms: Seq<SecretModel>, m: SecretModel)
    ensures
        forall|k: int|
            0 <= k < upsert_secret_model(ms, m).len() ==> #[trigger] upsert_secret_model(ms, m)[k]
                == m || ms.contains(upsert_secret_model(ms, m)[k]),
    decreases ms.len(),
{
    let r = upsert_secret_model(ms, m);
    if ms.len() == 0 {
    } else if ms[0].service_id == m.service_id && ms[0].key == m.key {
        assert forall|k: int| 0 <= k < r.len() implies r[k] == m || ms.contains(r[k]) by {
            if k > 0 {
                assert(r[k] == ms.skip(1)[k - 1]);
                assert(ms.skip(1)[k - 1] == ms[k]);
            }
        }
    } else if lex_lt(m.key, ms[0].key) {
        assert forall|k: int| 0 <= k < r.len() implies r[k] == m || ms.contains(r[k]) by {
            if k > 0 {
                assert(r[k] == ms[k - 1]);
            }
        }
    } else {
        lemma_upsert_secret_elements(ms.skip(1), m);
        let rec = upsert_secret_model(ms.skip(1), m);
        assert forall|k: int| 0 <= k < r.len() implies r[k] == m || ms.contains(r[k]) by {
            if k == 0 {
                assert(r[0] == ms[0]);
            } else {
                assert(r[k] == rec[k - 1]);
                if rec[k - 1] != m {
                    let t = choose|t: int| 0 <= t < ms.skip(1).len() && ms.skip(1)[t] == rec[k - 1];
                    assert(ms.skip(1)[t] == ms[t + 1]);
                }
            }
        }
    }
}

/// Upserting preserves the secrets invariant.
proof fn lemma_upsert_secret_wf(ms: Seq<SecretModel>, m: SecretModel)
    requires
        secrets_wf(ms),
    ensures
        secrets_wf(upsert_secret_model(ms, m)),
    decreases ms.len(),
{
    let r = upsert_secret_model(ms, m);
    if ms.len() == 0 {
    } else {
        assert(secrets_wf(ms.skip(1))) by {
            assert(forall|k: int| 0 <= k < ms.skip(1).len() ==> ms.skip(1)[k] == ms[k + 1]);
        }
        if ms[0].service_id == m.service_id && ms[0].key == m.key {
            assert forall|i: int, j: int| 0 <= i < j < r.len() implies lex_le(
                (#[trigger] r[i]).key,
                (#[trigger] r[j]).key,
            ) && !(r[i].service_id == r[j].service_id && r[i].key == r[j].key) by {
                if i > 0 {
                    assert(r[i] == ms[i]);
                }
                assert(r[j] == ms[j]);
            }
        } else if lex_lt(m.key, ms[0].key) {
            assert forall|i: int, j: int| 0 <= i < j < r.len() implies lex_le(
                (#[trigger] r[i]).key,
                (#[trigger] r[j]).key,
            ) && !(r[i].service_id == r[j].service_id && r[i].key == r[j].key) by {
                assert(r[j] == ms[j - 1]);
                if i == 0 {
                    if j > 1 {
                        lemma_lex_lt_le_trans(m.key, ms[0].key, ms[j - 1].key);
                    }
                    lemma_lex_order(m.key, ms[j - 1].key);
                } else {
                    assert(r[i] == ms[i - 1]);
                }
            }
        } else {
            lemma_lex_order(ms[0].key, m.key);
            lemma_upsert_secret_wf(ms.skip(1), m);
            lemma_upsert_secret_elements(ms.skip(1), m);
            let rec = upsert_secret_model(ms.skip(1), m);
            assert forall|i: int, j: int| 0 <= i < j < r.len() implies lex_le(
                (#[trigger] r[i]).key,
                (#[trigger] r[j]).key,
            ) && !(r[i].service_id == r[j].service_id && r[i].key == r[j].key) by {
                assert(r[j] == rec[j - 1]);
                if i == 0 {
                    assert(r[0] == ms[0]);
                    if rec[j - 1] == m {
                    } else {
                        let t = choose|t: int|
                            0 <= t < ms.skip(1).len() && ms.skip(1)[t] == rec[j - 1];
                        assert(ms.skip(1)[t] == ms[t + 1]);
                        assert(lex_le(ms[0].key, ms[t + 1].key));
                        assert(!(ms[0].service_id == ms[t + 1].service_id && ms[0].key == ms[t
                            + 1].key));
                    }
                } else {
                    assert(r[i] == rec[i - 1]);
                }
            }
        }
    }
}

/// An upserted secret is found under its key afterwards.
proof fn lemma_upsert_secret_found(ms: Seq<SecretModel>, m: SecretModel)
    ensures
        find_secret(upsert_secret_model(ms, m), m.service_id, m.key) == Some(m),
    decreases ms.len(),
{
    let r = upsert_secret_model(ms, m);
    if ms.len() == 0 {
        assert(r[0] == m);
    } else if ms[0].service_id == m.service_id && ms[0].key == m.key {
        assert(r[0] == m);
    } else if lex_lt(m.key, ms[0].key) {
        assert(r[0] == m);
    } else {
        lemma_upsert_secret_found(ms.skip(1), m);
        assert(r[0] == ms[0]);
        assert(r.skip(1) =~= upsert_secret_model(ms.skip(1), m));
    }
}

/// Writing the same `(service_id, key)` twice keeps the table well formed and
/// leaves exactly the second value under that key: the last write wins.
pub proof fn lemma_secret_last_write_wins(ms: Seq<SecretModel>, m1: SecretModel, m2: SecretModel)
    requires
        secrets_wf(ms),
        m1.service_id == m2.service_id,
        m1.key == m2.key,
    ensures
        secrets_wf(upsert_secret_model(upsert_secret_model(ms, m1), m2)),
        find_secret(
            upsert_secret_model(upsert_secret_model(ms, m1), m2),
            m2.service_id,
            m2.key,
        ) == Some(m2),
        secret_key_unique(upsert_secret_model(upsert_secret_model(ms, m1), m2), m2.service_id, m2.key),
{
    lemma_upsert_secret_wf(ms, m1);
    lemma_upsert_secret_wf(upsert_secret_model(ms, m1), m2);
    lemma_upsert_secret_found(upsert_secret_model(ms, m1), m2);
}

/// The table ends in the given row.
pub open spec fn last_resource_is(res: Seq<Resource>, r: Resource) -> bool {
    res.len() > 0 && res[res.len() - 1] == r
}

/// Only the final row of the table is keyed `(service_id, kind)`.
pub open spec fn only_last_resource_matches(res: Seq<Resource>, service_id: Id, kind: ResourceType) -> bool {
    forall|k: int|
        (0 <= k < res.len() && (#[trigger] res[k]).service_id == service_id && res[k].kind == kind)
            ==> k == res.len() - 1
}

/// Each secret of a service's slice occurs in the table.
proof fn lemma_secrets_for_member_source(ms: Seq<SecretModel>, service_id: Id, k: int)
    requires
        0 <= k < secrets_for(ms, service_id).len(),
    ensures
        exists|t: int| 0 <= t < ms.len() && #[trigger] ms[t] == secrets_for(ms, service_id)[k],
    decreases ms.len(),
{
    reveal(Seq::filter);
    let f = secrets_for(ms, service_id);
    let rest = secrets_for(ms.drop_last(), service_id);
    if ms.last().service_id == service_id && k == f.len() - 1 {
        assert(ms[ms.len() - 1] == f[k]);
    } else {
        lemma_secrets_for_member_source(ms.drop_last(), service_id, k);
        let t = choose|t: int|
            0 <= t < ms.drop_last().len() && #[trigger] ms.drop_last()[t] == rest[k];
        assert(ms[t] == f[k]);
    }
}

/// In a table sorted by key, each service's slice — what `get_secrets`
/// answers — is sorted by key as well.
pub proof fn lemma_secrets_output_sorted(ms: Seq<SecretModel>, service_id: Id)
    requires
        forall|i: int, j: int|
            0 <= i < j < ms.len() ==> lex_le((#[trigger] ms[i]).key, (#[trigger] ms[j]).key),
    ensures
        forall|i: int, j: int|
            0 <= i < j < secrets_for(ms, service_id).len() ==> lex_le(
                (#[trigger] secrets_for(ms, service_id)[i]).key,
                (#[trigger] secrets_for(ms, service_id)[j]).key,
            ),
    decreases ms.len(),
{
    reveal(Seq::filter);
    let f = secrets_for(ms, service_id);
    if ms.len() > 0 {
        assert(forall|i: int, j: int|
            0 <= i < j < ms.drop_last().len() ==> lex_le(
                (#[trigger] ms.drop_last()[i]).key,
                (#[trigger] ms.drop_last()[j]).key,
            ));
        lemma_secrets_output_sorted(ms.drop_last(), service_id);
        let rest = secrets_for(ms.drop_last(), service_id);
        assert forall|i: int, j: int| 0 <= i < j < f.len() implies lex_le(
            (#[trigger] f[i]).key,
            (#[trigger] f[j]).key,
        ) by {
            if j < rest.len() {
                assert(f[i] == rest[i]);
                assert(f[j] == rest[j]);
            } else {
                assert(f[j] == ms.last());
                assert(f[i] == rest[i]);
                lemma_secrets_for_member_source(ms.drop_last(), service_id, i);
                let t = choose|t: int|
                    0 <= t < ms.drop_last().len() && #[trigger] ms.drop_last()[t] == rest[i];
                assert(ms[t] == rest[i]);
                assert(ms[ms.len() - 1] == ms.last());
            }
        }
    }
}

/// Index of the row keyed `(service_id, kind)`, if any.
pub open spec fn resource_key_index(s: Seq<Resource>, service_id: Id, kind: ResourceType) -> Option<int>
    decreases s.len(),
{
    if s.len() == 0 {
        None
    } else if s[0].service_id == service_id && s[0].kind == kind {
        Some(0)
    } else {
        match resource_key_index(s.skip(1), service_id, kind) {
            Some(i) => Some(i + 1),
            None => None,
        }
    }
}

/// How writing a resource rewrites the table: the row under the same
/// `(service_id, kind)` is dropped, and the new row goes to the end.
pub open spec fn upsert_resource(s: Seq<Resource>, r: Resource) -> Seq<Resource> {
    match resource_key_index(s, r.service_id, r.kind) {
        Some(i) => s.remove(i).push(r),
        None => s.push(r),
    }
}

/// The resources of one service, in table order.
pub open spec fn resources_for(s: Seq<Resource>, service_id: Id) -> Seq<Resource> {
    s.filter(|x: Resource| x.service_id == service_id)
}

/// `resource_key_index` finds the first match, or nothing when no row
/// matches.
pub proof fn lemma_resource_key_index_char(s: Seq<Resource>, service_id: Id, kind: ResourceType)
    ensures
        match resource_key_index(s, service_id, kind) {
            Some(i) => 0 <= i < s.len() && s[i].service_id == service_id && s[i].kind == kind
                && (forall|k: int|
                0 <= k < i ==> !((#[trigger] s[k]).service_id == service_id && s[k].kind == kind)),
            None => forall|k: int|
                0 <= k < s.len() ==> !((#[trigger] s[k]).service_id == service_id && s[k].kind
                    == kind),
        },
    decreases s.len(),
{
    if s.len() > 0 && !(s[0].service_id == service_id && s[0].kind == kind) {
        lemma_resource_key_index_char(s.skip(1), service_id, kind);
        match resource_key_index(s.skip(1), service_id, kind) {
            Some(i) => {
                assert(s.skip(1)[i] == s[i + 1]);
                assert forall|k: int|
                    0 <= k < i + 1 implies !((#[trigger] s[k]).service_id == service_id
                    && s[k].kind == kind) by {
                    if k > 0 {
                        assert(s.skip(1)[k - 1] == s[k]);
                    }
                }
            },
            None => {
                assert forall|k: int|
                    0 <= k < s.len() implies !((#[trigger] s[k]).service_id == service_id
                    && s[k].kind == kind) by {
                    if k > 0 {
                        assert(s.skip(1)[k - 1] == s[k]);
                    }
                }
            },
        }
    }
}

/// Upserting preserves the resources invariant, and the new row lands at the
/// end of the table.
proof fn lemma_upsert_resource_wf(s: Seq<Resource>, r: Resource)
    requires
        resources_wf(s),
    ensures
        resources_wf(upsert_resource(s, r)),
        last_resource_is(upsert_resource(s, r), r),
        forall|k: int|
            0 <= k < upsert_resource(s, r).len() - 1 ==> !((#[trigger] upsert_resource(s, r)[k])
                .service_id == r.service_id && upsert_resource(s, r)[k].kind == r.kind),
{
    lemma_resource_key_index_char(s, r.service_id, r.kind);
    let res = upsert_resource(s, r);
    match resource_key_index(s, r.service_id, r.kind) {
        Some(i) => {
            let kept = s.remove(i);
            assert forall|k: int|
                0 <= k < kept.len() implies !((#[trigger] kept[k]).service_id == r.service_id
                && kept[k].kind == r.kind) by {
                if k < i {
                    assert(kept[k] == s[k]);
                } else {
                    assert(kept[k] == s[k + 1]);
                }
            }
            assert forall|a: int, b: int| 0 <= a < b < res.len() implies !((#[trigger] res[a])
                .service_id == (#[trigger] res[b]).service_id && res[a].kind == res[b].kind) by {
                if b < res.len() - 1 {
                    if a < i && b < i {
                    } else if a < i {
                        assert(kept[b] == s[b + 1]);
                    } else {
                        assert(kept[a] == s[a + 1]);
                        assert(kept[b] == s[b + 1]);
                    }
                }
            }
        },
        None => {
            assert forall|a: int, b: int| 0 <= a < b < res.len() implies !((#[trigger] res[a])
                .service_id == (#[trigger] res[b]).service_id && res[a].kind == res[b].kind) by {
                if b < res.len() - 1 {
                    assert(res[a] == s[a]);
                    assert(res[b] == s[b]);
                } else {
                    assert(res[a] == s[a]);
                }
            }
        },
    }
}

/// Writing the same `(service_id, kind)` twice keeps the table well formed
/// and leaves exactly one row of that kind, holding the second data: the last
/// write wins.
pub proof fn lemma_resource_last_write_wins(s: Seq<Resource>, r1: Resource, r2: Resource)
    requires
        resources_wf(s),
        r1.service_id == r2.service_id,
        r1.kind == r2.kind,
    ensures
        resources_wf(upsert_resource(upsert_resource(s, r1), r2)),
        last_resource_is(upsert_resource(upsert_resource(s, r1), r2), r2),
        only_last_resource_matches(upsert_resource(upsert_resource(s, r1), r2), r2.service_id, r2.kind),
{
    lemma_upsert_resource_wf(s, r1);
    lemma_upsert_resource_wf(upsert_resource(s, r1), r2);
}
impl Persistence {
    /// Writes a secret at a given instant: an upsert on `(service_id, key)`
    /// keeping the table sorted by key.
    pub fn insert_secret_at(&mut self, service_id: Id, key: &str, value: &str, now: Timestamp)
        ensures
            old(self).wf() ==> final(self).wf(),
            secret_models(final(self)@.secrets) == upsert_secret_model(
                secret_models(old(self)@.secrets),
                (SecretModel { service_id, key: key@, value: value@, last_update: now }),
            ),
            final(self)@.services == old(self)@.services,
            final(self)@.deployments == old(self)@.deployments,
            final(self)@.logs == old(self)@.logs,
            final(self)@.resources == old(self)@.resources,
    {
        let ghost m = SecretModel { service_id, key: key@, value: value@, last_update: now };
        let ghost ms = secret_models(old(self)@.secrets);
        let n = self.secrets.len();
        let mut i: usize = 0;
        proof {
            assert(ms.skip(0) =~= ms);
            assert(ms.take(0) =~= Seq::<SecretModel>::empty());
            assert(upsert_secret_model(ms, m) =~= ms.take(0) + upsert_secret_model(ms.skip(0), m));
        }
        while i < n
            invariant
                n == self.secrets@.len(),
                i <= n,
                self@ == old(self)@,
                ms == secret_models(self@.secrets),
                m == (SecretModel { service_id, key: key@, value: value@, last_update: now }),
                upsert_secret_model(ms, m) == ms.take(i as int) + upsert_secret_model(
                    ms.skip(i as int),
                    m,
                ),
            decreases n - i,
        {
            let ghost tail = ms.skip(i as int);
            proof {
                assert(tail[0] == ms[i as int]);
                assert(ms[i as int] == self.secrets@[i as int].model());
                assert(tail.skip(1) =~= ms.skip(i + 1));
            }
            let same_key = str_eq(self.secrets[i].key.as_str(), key);
            if self.secrets[i].service_id == service_id && same_key {
                let replacement = Secret {
                    service_id,
                    key: key.to_owned(),
                    value: value.to_owned(),
                    last_update: now,
                };
                proof {
                    assert(replacement.model() == m);
                }
                let ghost pre = self.secrets@;
                self.secrets.remove(i);
                self.secrets.insert(i, replacement);
                proof {
                    assert(self.secrets@ =~= pre.update(i as int, replacement));
                    assert(secret_models(self.secrets@) =~= ms.update(i as int, m));
                    assert(upsert_secret_model(tail, m) == seq![m] + tail.skip(1));
                    assert(ms.update(i as int, m) =~= ms.take(i as int) + (seq![m] + ms.skip(
                        i + 1,
                    )));
                    if secrets_wf(ms) {
                        lemma_upsert_secret_wf(ms, m);
                    }
                }
                return ;
            }
            let key_le = str_le(self.secrets[i].key.as_str(), key);
            if !key_le {
                proof {
                    lemma_lex_order(ms[i as int].key, m.key);
                    assert(lex_lt(m.key, tail[0].key));
                }
                let replacement = Secret {
                    service_id,
                    key: key.to_owned(),
                    value: value.to_owned(),
                    last_update: now,
                };
                proof {
                    assert(replacement.model() == m);
                }
                let ghost pre = self.secrets@;
                self.secrets.insert(i, replacement);
                proof {
                    assert(self.secrets@ =~= pre.insert(i as int, replacement));
                    assert(secret_models(self.secrets@) =~= ms.take(i as int) + (seq![m] + ms.skip(
                        i as int,
                    )));
                    assert(upsert_secret_model(tail, m) == seq![m] + tail);
                    if secrets_wf(ms) {
                        lemma_upsert_secret_wf(ms, m);
                    }
                }
                return ;
            }
            proof {
                lemma_lex_order(m.key, ms[i as int].key);
                assert(!lex_lt(m.key, tail[0].key));
                assert(upsert_secret_model(tail, m) == seq![tail[0]] + upsert_secret_model(
                    tail.skip(1),
                    m,
                ));
                assert(ms.take(i + 1) =~= ms.take(i as int).push(ms[i as int]));
                assert(ms.take(i as int) + (seq![tail[0]] + upsert_secret_model(tail.skip(1), m))
                    =~= ms.take(i + 1) + upsert_secret_model(ms.skip(i + 1), m));
            }
            i = i + 1;
        }
        let replacement = Secret {
            service_id,
            key: key.to_owned(),
            value: value.to_owned(),
            last_update: now,
        };
        proof {
            assert(replacement.model() == m);
        }
        self.secrets.push(replacement);
        proof {
            assert(ms.skip(n as int).len() == 0);
            assert(upsert_secret_model(ms.skip(n as int), m) == seq![m]);
            assert(secret_models(self.secrets@) =~= ms.push(m));
            assert(ms.push(m) =~= ms.take(n as int) + seq![m]);
            if secrets_wf(ms) {
                lemma_upsert_secret_wf(ms, m);
            }
        }
    }

    /// Writes a secret, stamping it with the current wall-clock time. What
    /// the table becomes for any stamp is fixed by [`Self::insert_secret_at`].
    pub fn insert_secret(&mut self, service_id: Id, key: &str, value: &str)
        ensures
            old(self).wf() ==> final(self).wf(),
            exists|t: Timestamp|
                secret_models(final(self)@.secrets) == upsert_secret_model(
                    secret_models(old(self)@.secrets),
                    (SecretModel { service_id, key: key@, value: value@, last_update: t }),
                ),
            final(self)@.services == old(self)@.services,
            final(self)@.deployments == old(self)@.deployments,
            final(self)@.logs == old(self)@.logs,
            final(self)@.resources == old(self)@.resources,
    {
        let now = Timestamp::now();
        self.insert_secret_at(service_id, key, value, now);
        proof {
            let m = SecretModel { service_id, key: key@, value: value@, last_update: now };
            assert(secret_models(self@.secrets) == upsert_secret_model(
                secret_models(old(self)@.secrets),
                m,
            ));
        }
    }

    /// The secrets of a service, ordered by key.
    pub fn get_secrets(&self, service_id: Id) -> (r: Vec<Secret>)
        ensures
            secret_models(r@) == secrets_for(secret_models(self@.secrets), service_id),
    {
        let ghost ms = secret_models(self@.secrets);
        let n = self.secrets.len();
        let mut r: Vec<Secret> = Vec::new();
        let mut i: usize = 0;
        proof {
            reveal(Seq::filter);
            assert(ms.take(0) =~= Seq::<SecretModel>::empty());
            assert(secret_models(r@) =~= secrets_for(ms.take(0), service_id));
        }
        while i < n
            invariant
                n == self.secrets@.len(),
                ms == secret_models(self@.secrets),
                i <= n,
                secret_models(r@) == secrets_for(ms.take(i as int), service_id),
            decreases n - i,
        {
            proof {
                reveal(Seq::filter);
                assert(ms.take(i + 1).drop_last() =~= ms.take(i as int));
                assert(ms.take(i + 1).last() == ms[i as int]);
                assert(ms[i as int] == self.secrets@[i as int].model());
                assert(secrets_for(ms.take(i + 1), service_id) == if ms[i as int].service_id
                    == service_id {
                    secrets_for(ms.take(i as int), service_id).push(ms[i as int])
                } else {
                    secrets_for(ms.take(i as int), service_id)
                });
            }
            if self.secrets[i].service_id == service_id {
                let ghost before = r@;
                r.push(self.secrets[i].dup());
                proof {
                    assert(secret_models(r@) =~= secret_models(before).push(ms[i as int]));
                }
            }
            i = i + 1;
        }
        proof {
            assert(ms.take(n as int) =~= ms);
        }
        r
    }

    /// Writes a resource: an upsert on `(service_id, kind)`, the new row
    /// going to the end of the table.
    pub fn insert_resource(&mut self, resource: Resource)
        ensures
            old(self).wf() ==> final(self).wf(),
            final(self)@.resources == upsert_resource(old(self)@.resources, resource),
            final(self)@.services == old(self)@.services,
            final(self)@.deployments == old(self)@.deployments,
            final(self)@.logs == old(self)@.logs,
            final(self)@.secrets == old(self)@.secrets,
    {
        let ghost s = self@.resources;
        let n = self.resources.len();
        let mut i: usize = 0;
        while i < n
            invariant
                n == self.resources@.len(),
                i <= n,
                self@ == old(self)@,
                s == self@.resources,
                forall|k: int|
                    0 <= k < i ==> !((#[trigger] s[k]).service_id == resource.service_id
                        && s[k].kind == resource.kind),
            decreases n - i,
        {
            if self.resources[i].service_id == resource.service_id && self.resources[i].kind
                == resource.kind {
                proof {
                    lemma_resource_key_index_char(s, resource.service_id, resource.kind);
                    if resources_wf(s) {
                        lemma_upsert_resource_wf(s, resource);
                    }
                    match resource_key_index(s, resource.service_id, resource.kind) {
                        Some(j) => {
                            if j < i {
                                assert(!(s[j].service_id == resource.service_id && s[j].kind
                                    == resource.kind));
                            }
                            if j > i {
                                assert(!(s[i as int].service_id == resource.service_id && s[
                                    i as int].kind == resource.kind));
                            }
                            assert(j == i);
                        },
                        None => {
                            assert(!(s[i as int].service_id == resource.service_id && s[
                                i as int].kind == resource.kind));
                        },
                    }
                }
                self.resources.remove(i);
                self.resources.push(resource);
                return ;
            }
            i = i + 1;
        }
        proof {
            lemma_resource_key_index_char(s, resource.service_id, resource.kind);
            if resources_wf(s) {
                lemma_upsert_resource_wf(s, resource);
            }
            match resource_key_index(s, resource.service_id, resource.kind) {
                Some(j) => {
                    assert(!(s[j].service_id == resource.service_id && s[j].kind
                        == resource.kind));
                },
                None => {},
            }
        }
        self.resources.push(resource);
    }

    /// The resources of a service, in table order.
    pub fn get_resources(&self, service_id: Id) -> (r: Vec<Resource>)
        ensures
            r@.len() == resources_for(self@.resources, service_id).len(),
            forall|k: int|
                0 <= k < r@.len() ==> resource_eqv(
                    #[trigger] r@[k],
                    resources_for(self@.resources, service_id)[k],
                ),
    {
        let ghost s = self@.resources;
        let n = self.resources.len();
        let mut r: Vec<Resource> = Vec::new();
        let mut i: usize = 0;
        proof {
            reveal(Seq::filter);
            assert(s.take(0) =~= Seq::<Resource>::empty());
            assert(resources_for(s.take(0), service_id) =~= Seq::<Resource>::empty());
        }
        while i < n
            invariant
                n == self.resources@.len(),
                s == self@.resources,
                i <= n,
                r@.len() == resources_for(s.take(i as int), service_id).len(),
                forall|k: int|
                    0 <= k < r@.len() ==> resource_eqv(
                        #[trigger] r@[k],
                        resources_for(s.take(i as int), service_id)[k],
                    ),
            decreases n - i,
        {
            proof {
                reveal(Seq::filter);
                assert(s.take(i + 1).drop_last() =~= s.take(i as int));
                assert(s.take(i + 1).last() == s[i as int]);
                assert(resources_for(s.take(i + 1), service_id) == if s[i as int].service_id
                    == service_id {
                    resources_for(s.take(i as int), service_id).push(s[i as int])
                } else {
                    resources_for(s.take(i as int), service_id)
                });
            }
            if self.resources[i].service_id == service_id {
                r.push(self.resources[i].dup());
            }
            i = i + 1;
        }
        proof {
            assert(s.take(n as int) =~= s);
        }
        r
    }
}

/// The `Running` rows joined with their service names, keyed by
/// `last_update`, in table order; rows of a service that no longer exists
/// are left out.
pub open spec fn runnable_pairs(deps: Seq<Deployment>, svcs: Seq<Service>) -> Seq<
    (i64, DeploymentRunnable),
>
    decreases deps.len(),
{
    if deps.len() == 0 {
        Seq::empty()
    } else {
        let rest = runnable_pairs(deps.drop_last(), svcs);
        let d = deps.last();
        if d.state == State::Running {
            match find_service_by_id(svcs, d.service_id) {
                Some(svc) => rest.push(
                    (
                        d.last_update.millis,
                        DeploymentRunnable {
                            id: d.id,
                            service_name: svc.name,
                            service_id: d.service_id,
                        },
                    ),
                ),
                None => rest,
            }
        } else {
            rest
        }
    }
}

/// What startup recovery reads: every `Running` row with its service name,
/// ordered by `last_update` ascending, ties keeping table order.
pub open spec fn spec_runnable_deployments(m: StoreModel) -> Seq<DeploymentRunnable> {
    stable_sort_by_key(runnable_pairs(m.deployments, m.services)).map_values(
        |p: (i64, DeploymentRunnable)| p.1,
    )
}

/// The ids of the `Running` rows of one service, in table order.
pub open spec fn active_ids(s: Seq<Deployment>, service_id: Id) -> Seq<Id> {
    s.filter(|d: Deployment| d.service_id == service_id && d.state == State::Running).map_values(
        |d: Deployment| d.id,
    )
}

/// The earliest row by `last_update`, ties resolved to the earliest row in
/// the table.
pub open spec fn first_min_by_time(s: Seq<Deployment>) -> Deployment
    decreases s.len(),
{
    if s.len() <= 1 {
        s[0]
    } else {
        let rest = first_min_by_time(s.drop_last());
        if s.last().last_update.millis < rest.last_update.millis {
            s.last()
        } else {
            rest
        }
    }
}

/// The `Running` rows of one service.
pub open spec fn running_rows(deps: Seq<Deployment>, service_id: Id) -> Seq<Deployment> {
    deps.filter(|d: Deployment| d.service_id == service_id && d.state == State::Running)
}

/// What an address lookup answers: nothing when the service does not exist
/// or has no running deployment; otherwise the bound socket of its earliest
/// running row — an error when that row has none to convert.
pub open spec fn spec_address_lookup(m: StoreModel, name: Seq<char>) -> Result<
    Option<Address>,
    PersistenceError,
> {
    match find_service_by_name(m.services, name) {
        None => Ok(None),
        Some(svc) => {
            let running = running_rows(m.deployments, svc.id);
            if running.len() == 0 {
                Ok(None)
            } else {
                match first_min_by_time(running).address {
                    Some(a) => Ok(Some(a)),
                    None => Err(PersistenceError::MissingAddress),
                }
            }
        },
    }
}

/// The logs of one deployment keyed by timestamp, each with its table
/// index.
pub open spec fn log_time_pairs(logs: Seq<Log>, id: Id) -> Seq<(i64, usize)>
    decreases logs.len(),
{
    if logs.len() == 0 {
        Seq::empty()
    } else {
        let rest = log_time_pairs(logs.drop_last(), id);
        if logs.last().id == id {
            rest.push((logs.last().timestamp.millis, (logs.len() - 1) as usize))
        } else {
            rest
        }
    }
}

/// Every pair points into the table, at a log of the deployment, under its
/// own timestamp.
pub proof fn lemma_log_time_pairs_bounds(logs: Seq<Log>, id: Id)
    requires
        logs.len() <= usize::MAX,
    ensures
        forall|k: int|
            0 <= k < log_time_pairs(logs, id).len() ==> ({
                let p = #[trigger] log_time_pairs(logs, id)[k];
                &&& p.1 < logs.len()
                &&& logs[p.1 as int].id == id
                &&& p.0 == logs[p.1 as int].timestamp.millis
            }),
    decreases logs.len(),
{
    if logs.len() > 0 {
        lemma_log_time_pairs_bounds(logs.drop_last(), id);
        let rest = log_time_pairs(logs.drop_last(), id);
        let r = log_time_pairs(logs, id);
        assert forall|k: int| #![trigger r[k]] 0 <= k < r.len() implies ({
            let p = r[k];
            &&& p.1 < logs.len()
            &&& logs[p.1 as int].id == id
            &&& p.0 == logs[p.1 as int].timestamp.millis
        }) by {
            if k < rest.len() {
                assert(r[k] == rest[k]);
                assert(logs.drop_last()[rest[k].1 as int] == logs[rest[k].1 as int]);
            } else {
                assert(logs.last().id == id);
                assert(r[k] == (logs.last().timestamp.millis, (logs.len() - 1) as usize));
                assert(logs[logs.len() - 1] == logs.last());
            }
        }
    }
}

/// A state log's row keeps step with the log: after the update, the row
/// found under the log's id carries exactly its state, time and address.
pub proof fn lemma_state_log_row_matches(deps: Seq<Deployment>, st: DeploymentState)
    requires
        has_deployment(deps, st.id),
    ensures
        find_deployment(update_rows(deps, st), st.id) matches Some(row) && row.id == st.id
            && row.state == st.state && row.last_update == st.last_update && row.address
            == st.address,
    decreases deps.len(),
{
    let u = update_rows(deps, st);
    if deps.len() > 0 {
        if deps[0].id == st.id {
            assert(u[0].id == st.id);
        } else {
            assert(u[0].id == deps[0].id);
            assert(u.skip(1) =~= update_rows(deps.skip(1), st));
            lemma_state_log_row_matches(deps.skip(1), st);
        }
    }
}

/// A freshly inserted row is found again under its id, exactly as inserted.
pub proof fn lemma_insert_then_get(deps: Seq<Deployment>, d: Deployment)
    requires
        !has_deployment(deps, d.id),
    ensures
        find_deployment(deps.push(d), d.id) == Some(d),
    decreases deps.len(),
{
    let r = deps.push(d);
    if deps.len() == 0 {
        assert(r[0] == d);
    } else {
        assert(r[0] == deps[0]);
        assert(r.skip(1) =~= deps.skip(1).push(d));
        lemma_insert_then_get(deps.skip(1), d);
    }
}

impl Persistence {
    /// Routes one captured log, as the log router's worker does: an event
    /// log is persisted as it is; a state log is persisted with the marker
    /// fields and an empty target, and the deployment row it names is
    /// brought up to date. Nothing else changes either way.
    pub fn record(&mut self, log: deploy_layer::Log)
        ensures
            old(self).wf() ==> final(self).wf(),
            log.kind == LogType::Event ==> final(self)@ == (StoreModel {
                logs: old(self)@.logs.push(log.spec_stored_event()),
                ..old(self)@
            }),
            log.kind == LogType::State ==> ({
                &&& final(self)@.logs.len() == old(self)@.logs.len() + 1
                &&& final(self)@.logs.take(old(self)@.logs.len() as int) == old(self)@.logs
                &&& log.is_stored_state_row(final(self)@.logs[old(self)@.logs.len() as int])
                &&& final(self)@.deployments == update_rows(
                    old(self)@.deployments,
                    log.spec_deployment_state(),
                )
                &&& final(self)@.services == old(self)@.services
                &&& final(self)@.resources == old(self)@.resources
                &&& final(self)@.secrets == old(self)@.secrets
            }),
    {
        match log.kind {
            LogType::Event => {
                let row = log.into_stored_event();
                self.logs.push(row);
            },
            LogType::State => {
                let row = log.to_stored_state();
                let st = log.to_deployment_state();
                self.logs.push(row);
                self.update_deployment(st);
                proof {
                    assert(self@.logs.take(old(self)@.logs.len() as int) =~= old(self)@.logs);
                }
            },
        }
    }

    /// The ids of a service's `Running` rows, in table order.
    pub fn get_active_deployments(&self, service_id: Id) -> (r: Vec<Id>)
        ensures
            r@ == active_ids(self@.deployments, service_id),
    {
        let ghost s = self@.deployments;
        let n = self.deployments.len();
        let mut r: Vec<Id> = Vec::new();
        let mut i: usize = 0;
        proof {
            reveal(Seq::filter);
            assert(s.take(0) =~= Seq::<Deployment>::empty());
            assert(r@ =~= active_ids(s.take(0), service_id));
        }
        while i < n
            invariant
                n == s.len(),
                i <= n,
                s == self@.deployments,
                r@ == active_ids(s.take(i as int), service_id),
            decreases n - i,
        {
            let d = self.deployments[i];
            proof {
                reveal(Seq::filter);
                assert(s.take(i + 1).drop_last() =~= s.take(i as int));
                assert(s.take(i + 1).last() == s[i as int]);
                assert(active_ids(s.take(i + 1), service_id) =~= if s[i as int].service_id
                    == service_id && s[i as int].state == State::Running {
                    active_ids(s.take(i as int), service_id).push(s[i as int].id)
                } else {
                    active_ids(s.take(i as int), service_id)
                });
            }
            if d.service_id == service_id && matches!(d.state, State::Running) {
                r.push(d.id);
            }
            i = i + 1;
        }
        proof {
            assert(s.take(n as int) =~= s);
        }
        r
    }

    fn find_service_row(&self, id: Id) -> (r: Option<Service>)
        ensures
            r == find_service_by_id(self@.services, id),
    {
        let ghost s = self@.services;
        let n = self.services.len();
        let mut i: usize = 0;
        proof {
            assert(s.skip(0) =~= s);
        }
        while i < n
            invariant
                n == s.len(),
                i <= n,
                s == self@.services,
                find_service_by_id(s, id) == find_service_by_id(s.skip(i as int), id),
            decreases n - i,
        {
            proof {
                assert(s.skip(i as int)[0] == s[i as int]);
                assert(s.skip(i as int).skip(1) =~= s.skip(i + 1));
            }
            if self.services[i].id == id {
                return Some(self.services[i].dup());
            }
            i = i + 1;
        }
        None
    }

    /// Every `Running` row joined with its service name, ordered by
    /// `last_update` ascending. What startup recovery resumes.
    pub fn get_all_runnable_deployments(&self) -> (r: Vec<DeploymentRunnable>)
        ensures
            r@ == spec_runnable_deployments(self@),
    {
        let ghost deps = self@.deployments;
        let ghost svcs = self@.services;
        let n = self.deployments.len();
        let mut pairs: Vec<(i64, DeploymentRunnable)> = Vec::new();
        let mut i: usize = 0;
        proof {
            assert(deps.take(0) =~= Seq::<Deployment>::empty());
            assert(pairs@ =~= runnable_pairs(deps.take(0), svcs));
        }
        while i < n
            invariant
                n == deps.len(),
                i <= n,
                deps == self@.deployments,
                svcs == self@.services,
                pairs@ == runnable_pairs(deps.take(i as int), svcs),
            decreases n - i,
        {
            let d = self.deployments[i];
            proof {
                assert(deps.take(i + 1).drop_last() =~= deps.take(i as int));
                assert(deps.take(i + 1).last() == deps[i as int]);
            }
            if matches!(d.state, State::Running) {
                match self.find_service_row(d.service_id) {
                    Some(svc) => {
                        pairs.push(
                            (
                                d.last_update.millis,
                                DeploymentRunnable {
                                    id: d.id,
                                    service_name: svc.name,
                                    service_id: d.service_id,
                                },
                            ),
                        );
                    },
                    None => {},
                }
            }
            i = i + 1;
        }
        proof {
            assert(deps.take(n as int) =~= deps);
        }
        let mut sorted = sort_pairs(pairs);
        let ghost ordered = stable_sort_by_key(runnable_pairs(deps, svcs));
        let mut r: Vec<DeploymentRunnable> = Vec::new();
        let ghost mut done: int = 0;
        proof {
            assert(r@ =~= spec_runnable_deployments(self@).take(0));
            assert(sorted@ =~= ordered.skip(0));
        }
        while sorted.len() > 0
            invariant
                0 <= done <= ordered.len(),
                sorted@ == ordered.skip(done),
                r@ == spec_runnable_deployments(self@).take(done),
                ordered == stable_sort_by_key(runnable_pairs(self@.deployments, self@.services)),
            decreases sorted@.len(),
        {
            let p = sorted.remove(0);
            proof {
                assert(ordered.skip(done)[0] == ordered[done]);
                assert(ordered.skip(done).remove(0) =~= ordered.skip(done + 1));
                assert(spec_runnable_deployments(self@)[done] == ordered[done].1);
                assert(spec_runnable_deployments(self@).take(done + 1) =~= spec_runnable_deployments(
                    self@,
                ).take(done).push(ordered[done].1));
            }
            r.push(p.1);
            proof {
                done = done + 1;
            }
        }
        proof {
            assert(spec_runnable_deployments(self@).take(done) =~= spec_runnable_deployments(
                self@,
            ));
        }
        r
    }

    /// The socket of the named service's running deployment: what the
    /// reverse proxy asks on each incoming request.
    pub fn get_address_for_service(&self, service_name: &str) -> (r: Result<
        Option<Address>,
        PersistenceError,
    >)
        ensures
            r == spec_address_lookup(self@, service_name@),
    {
        let svc = match self.get_service_by_name(service_name) {
            None => {
                return Ok(None);
            },
            Some(svc) => svc,
        };
        let ghost s = self@.deployments;
        let n = self.deployments.len();
        let mut best: Option<Deployment> = None;
        let mut i: usize = 0;
        proof {
            reveal(Seq::filter);
            assert(s.take(0) =~= Seq::<Deployment>::empty());
            assert(running_rows(s.take(0), svc.id).len() == 0);
        }
        while i < n
            invariant
                n == s.len(),
                i <= n,
                s == self@.deployments,
                match best {
                    None => running_rows(s.take(i as int), svc.id).len() == 0,
                    Some(b) => running_rows(s.take(i as int), svc.id).len() > 0 && b
                        == first_min_by_time(running_rows(s.take(i as int), svc.id)),
                },
            decreases n - i,
        {
            let d = self.deployments[i];
            proof {
                reveal(Seq::filter);
                assert(s.take(i + 1).drop_last() =~= s.take(i as int));
                assert(s.take(i + 1).last() == s[i as int]);
                assert(running_rows(s.take(i + 1), svc.id) == if s[i as int].service_id == svc.id
                    && s[i as int].state == State::Running {
                    running_rows(s.take(i as int), svc.id).push(s[i as int])
                } else {
                    running_rows(s.take(i as int), svc.id)
                });
            }
            if d.service_id == svc.id && matches!(d.state, State::Running) {
                let ghost prev = running_rows(s.take(i as int), svc.id);
                let ghost grown = running_rows(s.take(i + 1), svc.id);
                proof {
                    assert(grown.drop_last() =~= prev);
                    assert(grown.last() == s[i as int]);
                }
                match &best {
                    None => {
                        proof {
                            assert(grown.len() == 1);
                            assert(grown[0] == s[i as int]);
                        }
                        best = Some(d);
                    },
                    Some(b) => {
                        if d.last_update.millis < b.last_update.millis {
                            best = Some(d);
                        } else {
                            best = Some(*b);
                        }
                    },
                }
            }
            i = i + 1;
        }
        proof {
            assert(s.take(n as int) =~= s);
        }
        match best {
            None => Ok(None),
            Some(b) => match b.address {
                Some(a) => Ok(Some(a)),
                None => Err(PersistenceError::MissingAddress),
            },
        }
    }

    /// The logs of one deployment, ordered by timestamp, ties keeping table
    /// order.
    pub fn get_deployment_logs(&self, id: Id) -> (r: Vec<Log>)
        ensures
            ({
                let sorted = stable_sort_by_key(log_time_pairs(self@.logs, id));
                &&& r@.len() == sorted.len()
                &&& forall|k: int|
                    0 <= k < r@.len() ==> sorted[k].1 < self@.logs.len() && log_eqv(
                        #[trigger] r@[k],
                        self@.logs[sorted[k].1 as int],
                    )
            }),
    {
        let ghost logs = self@.logs;
        let n = self.logs.len();
        let mut pairs: Vec<(i64, usize)> = Vec::new();
        let mut i: usize = 0;
        proof {
            assert(logs.take(0) =~= Seq::<Log>::empty());
            assert(pairs@ =~= log_time_pairs(logs.take(0), id));
        }
        while i < n
            invariant
                n == logs.len(),
                i <= n,
                logs == self@.logs,
                pairs@ == log_time_pairs(logs.take(i as int), id),
            decreases n - i,
        {
            proof {
                assert(logs.take(i + 1).drop_last() =~= logs.take(i as int));
                assert(logs.take(i + 1).last() == logs[i as int]);
            }
            if self.logs[i].id == id {
                pairs.push((self.logs[i].timestamp.millis, i));
            }
            i = i + 1;
        }
        proof {
            assert(logs.take(n as int) =~= logs);
        }
        let ghost allpairs = pairs@;
        let mut sorted = sort_pairs(pairs);
        let ghost ordered = stable_sort_by_key(allpairs);
        proof {
            lemma_log_time_pairs_bounds(logs, id);
            lemma_stable_sort_elements(allpairs);
            assert forall|k: int| 0 <= k < ordered.len() implies ordered[k].1 < logs.len()
                && logs[ordered[k].1 as int].id == id by {
                assert(allpairs.contains(ordered[k]));
                let t = choose|t: int| 0 <= t < allpairs.len() && allpairs[t] == ordered[k];
                assert(log_time_pairs(logs, id)[t] == ordered[k]);
            }
        }
        let mut r: Vec<Log> = Vec::new();
        let ghost mut done: int = 0;
        proof {
            assert(sorted@ =~= ordered.skip(0));
        }
        while sorted.len() > 0
            invariant
                0 <= done <= ordered.len(),
                sorted@ == ordered.skip(done),
                logs == self@.logs,
                ordered == stable_sort_by_key(log_time_pairs(logs, id)),
                forall|k: int|
                    0 <= k < ordered.len() ==> (#[trigger] ordered[k]).1 < logs.len()
                        && logs[ordered[k].1 as int].id == id,
                r@.len() == done,
                forall|k: int|
                    0 <= k < done ==> log_eqv(#[trigger] r@[k], logs[ordered[k].1 as int]),
            decreases sorted@.len(),
        {
            let p = sorted.remove(0);
            proof {
                assert(ordered.skip(done)[0] == ordered[done]);
                assert(ordered.skip(done).remove(0) =~= ordered.skip(done + 1));
            }
            let row = self.logs[p.1].dup();
            r.push(row);
            proof {
                done = done + 1;
            }
        }
        r
    }
}

impl deploy_layer::LogRecorder for Persistence {
    /// The store is the engine's log recorder: the capture layer hands every
    /// log here. What routing does is stated on [`Persistence::record`].
    fn record(&mut self, log: deploy_layer::Log) {
        Persistence::record(self, log)
    }
}

/// A found service really is a row of the table under that name; a miss
/// means no row carries the name.
pub proof fn lemma_find_service_by_name_char(s: Seq<Service>, name: Seq<char>)
    ensures
        match find_service_by_name(s, name) {
            Some(svc) => exists|i: int|
                0 <= i < s.len() && #[trigger] s[i] == svc && s[i].name@ == name,
            None => forall|k: int| 0 <= k < s.len() ==> (#[trigger] s[k]).name@ != name,
        },
    decreases s.len(),
{
    if s.len() > 0 {
        if s[0].name@ == name {
            assert(s[0] == find_service_by_name(s, name).unwrap());
        } else {
            lemma_find_service_by_name_char(s.skip(1), name);
            match find_service_by_name(s.skip(1), name) {
                Some(svc) => {
                    let i = choose|i: int|
                        0 <= i < s.skip(1).len() && s.skip(1)[i] == svc && s.skip(1)[i].name@
                            == name;
                    assert(s[i + 1] == svc);
                },
                None => {
                    assert forall|k: int| 0 <= k < s.len() implies (#[trigger] s[k]).name@
                        != name by {
                        if k > 0 {
                            assert(s.skip(1)[k - 1] == s[k]);
                        }
                    }
                },
            }
        }
    }
}

/// Every running row of a service is in its running slice.
proof fn lemma_running_rows_complete(deps: Seq<Deployment>, service_id: Id, j: int)
    requires
        0 <= j < deps.len(),
        deps[j].service_id == service_id,
        deps[j].state == State::Running,
    ensures
        running_rows(deps, service_id).contains(deps[j]),
    decreases deps.len(),
{
    reveal(Seq::filter);
    let f = running_rows(deps, service_id);
    if j == deps.len() - 1 {
        assert(deps.last() == deps[j]);
        assert(f[f.len() - 1] == deps[j]);
    } else {
        lemma_running_rows_complete(deps.drop_last(), service_id, j);
        assert(deps.drop_last()[j] == deps[j]);
        let rest = running_rows(deps.drop_last(), service_id);
        let t = choose|t: int| 0 <= t < rest.len() && rest[t] == deps[j];
        assert(f[t] == deps[j]);
    }
}

/// A running slice holds only running rows of that service.
proof fn lemma_running_rows_props(deps: Seq<Deployment>, service_id: Id)
    ensures
        forall|k: int|
            0 <= k < running_rows(deps, service_id).len() ==> ({
                let d = #[trigger] running_rows(deps, service_id)[k];
                &&& d.service_id == service_id
                &&& d.state == State::Running
                &&& deps.contains(d)
            }),
    decreases deps.len(),
{
    reveal(Seq::filter);
    let f = running_rows(deps, service_id);
    if deps.len() > 0 {
        lemma_running_rows_props(deps.drop_last(), service_id);
        let rest = running_rows(deps.drop_last(), service_id);
        assert forall|k: int| #![trigger f[k]] 0 <= k < f.len() implies ({
            let d = f[k];
            &&& d.service_id == service_id
            &&& d.state == State::Running
            &&& deps.contains(d)
        }) by {
            if k < rest.len() {
                assert(f[k] == rest[k]);
                if deps.drop_last().contains(rest[k]) {
                    let t = choose|t: int|
                        0 <= t < deps.drop_last().len() && deps.drop_last()[t] == rest[k];
                    assert(deps[t] == rest[k]);
                }
            } else {
                assert(f[k] == deps.last());
                assert(deps[deps.len() - 1] == deps.last());
            }
        }
    }
}

/// With at most one running deployment per service, a running slice holds at
/// most one row.
proof fn lemma_running_rows_le_one(deps: Seq<Deployment>, service_id: Id)
    requires
        forall|a: int, b: int|
            0 <= a < b < deps.len() ==> !((#[trigger] deps[a]).state == State::Running
                && (#[trigger] deps[b]).state == State::Running && deps[a].service_id
                == deps[b].service_id),
    ensures
        running_rows(deps, service_id).len() <= 1,
    decreases deps.len(),
{
    reveal(Seq::filter);
    let f = running_rows(deps, service_id);
    if deps.len() > 0 {
        assert(forall|a: int, b: int|
            0 <= a < b < deps.drop_last().len() ==> !((#[trigger] deps.drop_last()[a]).state
                == State::Running && (#[trigger] deps.drop_last()[b]).state == State::Running
                && deps.drop_last()[a].service_id == deps.drop_last()[b].service_id));
        lemma_running_rows_le_one(deps.drop_last(), service_id);
        let rest = running_rows(deps.drop_last(), service_id);
        if deps.last().service_id == service_id && deps.last().state == State::Running {
            if rest.len() > 0 {
                lemma_running_rows_props(deps.drop_last(), service_id);
                let t = choose|t: int|
                    0 <= t < deps.drop_last().len() && deps.drop_last()[t] == rest[0];
                assert(deps[t] == rest[0]);
                assert(deps[deps.len() - 1] == deps.last());
            }
        }
    }
}

/// The earliest row is drawn from the sequence.
proof fn lemma_first_min_member(s: Seq<Deployment>)
    requires
        s.len() > 0,
    ensures
        s.contains(first_min_by_time(s)),
    decreases s.len(),
{
    if s.len() == 1 {
        assert(s[0] == first_min_by_time(s));
    } else {
        lemma_first_min_member(s.drop_last());
        if s.last().last_update.millis < first_min_by_time(s.drop_last()).last_update.millis {
            assert(s[s.len() - 1] == s.last());
        } else {
            let t = choose|t: int|
                0 <= t < s.drop_last().len() && s.drop_last()[t] == first_min_by_time(
                    s.drop_last(),
                );
            assert(s[t] == first_min_by_time(s));
        }
    }
}

/// Some deployment of the named service is running and bound to `a`.
pub open spec fn spec_is_running_at(m: StoreModel, name: Seq<char>, a: Address) -> bool {
    exists|i: int, j: int|
        0 <= i < m.services.len() && 0 <= j < m.deployments.len() && (#[trigger] m.services[i]).name@
            == name && (#[trigger] m.deployments[j]).service_id == m.services[i].id
            && m.deployments[j].state == State::Running && m.deployments[j].address == Some(a)
}

/// In a store whose service names are unique and which runs at most one
/// deployment per service, an address lookup answers `a` exactly when a
/// running deployment of the named service is bound to `a`.
pub proof fn lemma_address_lookup_exact(m: StoreModel, name: Seq<char>, a: Address)
    requires
        forall|i: int, j: int|
            0 <= i < j < m.services.len() ==> (#[trigger] m.services[i]).name@
                != (#[trigger] m.services[j]).name@,
        forall|i: int, j: int|
            0 <= i < j < m.deployments.len() ==> !((#[trigger] m.deployments[i]).state
                == State::Running && (#[trigger] m.deployments[j]).state == State::Running
                && m.deployments[i].service_id == m.deployments[j].service_id),
    ensures
        (spec_address_lookup(m, name) == Ok::<Option<Address>, PersistenceError>(Some(a)))
            <==> spec_is_running_at(m, name, a),
{
    lemma_find_service_by_name_char(m.services, name);
    match find_service_by_name(m.services, name) {
        None => {
            if spec_is_running_at(m, name, a) {
                let (i, j): (int, int) = choose|i: int, j: int|
                    0 <= i < m.services.len() && 0 <= j < m.deployments.len()
                        && (#[trigger] m.services[i]).name@ == name
                        && (#[trigger] m.deployments[j]).service_id == m.services[i].id
                        && m.deployments[j].state == State::Running && m.deployments[j].address
                        == Some(a);
                assert(m.services[i].name@ != name);
            }
        },
        Some(svc) => {
            let i0 = choose|i: int|
                0 <= i < m.services.len() && #[trigger] m.services[i] == svc && m.services[i].name@
                    == name;
            let running = running_rows(m.deployments, svc.id);
            lemma_running_rows_props(m.deployments, svc.id);
            lemma_running_rows_le_one(m.deployments, svc.id);
            if running.len() == 0 {
                if spec_is_running_at(m, name, a) {
                    let (i, j): (int, int) = choose|i: int, j: int|
                        0 <= i < m.services.len() && 0 <= j < m.deployments.len()
                            && (#[trigger] m.services[i]).name@ == name
                            && (#[trigger] m.deployments[j]).service_id == m.services[i].id
                            && m.deployments[j].state == State::Running && m.deployments[j].address
                            == Some(a);
                    assert(m.services[i] == svc) by {
                        if i < i0 {
                            assert(m.services[i].name@ != m.services[i0].name@);
                        } else if i > i0 {
                            assert(m.services[i0].name@ != m.services[i].name@);
                        }
                    }
                    lemma_running_rows_complete(m.deployments, svc.id, j);
                }
            } else {
                lemma_first_min_member(running);
                let fm = first_min_by_time(running);
                let tf = choose|t: int| 0 <= t < running.len() && running[t] == fm;
                assert(running.len() == 1);
                assert(running[0] == fm);
                match fm.address {
                    Some(a0) => {
                        if a == a0 {
                            assert(m.deployments.contains(fm));
                            let j0 = choose|j: int|
                                0 <= j < m.deployments.len() && m.deployments[j] == fm;
                            assert(0 <= i0 < m.services.len() && m.services[i0].name@ == name
                                && m.deployments[j0].service_id == m.services[i0].id
                                && m.deployments[j0].state == State::Running
                                && m.deployments[j0].address == Some(a));
                            assert(spec_is_running_at(m, name, a));
                        } else {
                            if spec_is_running_at(m, name, a) {
                                let (i, j): (int, int) = choose|i: int, j: int|
                                    0 <= i < m.services.len() && 0 <= j < m.deployments.len()
                                        && (#[trigger] m.services[i]).name@ == name
                                        && (#[trigger] m.deployments[j]).service_id
                                        == m.services[i].id && m.deployments[j].state
                                        == State::Running && m.deployments[j].address == Some(a);
                                assert(m.services[i] == svc) by {
                                    if i < i0 {
                                        assert(m.services[i].name@ != m.services[i0].name@);
                                    } else if i > i0 {
                                        assert(m.services[i0].name@ != m.services[i].name@);
                                    }
                                }
                                lemma_running_rows_complete(m.deployments, svc.id, j);
                                let tj = choose|t: int|
                                    0 <= t < running.len() && running[t] == m.deployments[j];
                                assert(m.deployments[j] == fm);
                            }
                        }
                    },
                    None => {
                        if spec_is_running_at(m, name, a) {
                            let (i, j): (int, int) = choose|i: int, j: int|
                                0 <= i < m.services.len() && 0 <= j < m.deployments.len()
                                    && (#[trigger] m.services[i]).name@ == name
                                    && (#[trigger] m.deployments[j]).service_id
                                    == m.services[i].id && m.deployments[j].state
                                    == State::Running && m.deployments[j].address == Some(a);
                            assert(m.services[i] == svc) by {
                                if i < i0 {
                                    assert(m.services[i].name@ != m.services[i0].name@);
                                } else if i > i0 {
                                    assert(m.services[i0].name@ != m.services[i].name@);
                                }
                            }
                            lemma_running_rows_complete(m.deployments, svc.id, j);
                            let tj = choose|t: int|
                                0 <= t < running.len() && running[t] == m.deployments[j];
                            assert(m.deployments[j] == fm);
                        }
                    },
                }
            }
        },
    }
}

} // verus!
