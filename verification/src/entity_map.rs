//! Entity identity translation between server and client.

use vstd::prelude::*;
use crate::assoc::{
    assoc_get, assoc_has, assoc_unique, lemma_assoc_get_at, lemma_assoc_get_push,
    lemma_assoc_get_remove, lemma_assoc_get_some,
};
use crate::entity::Entity;
use crate::replicated_clients::ClientId;

verus! {

/// Index of the entry keyed by `e`, scanning from the front.
fn find_entity_key(v: &Vec<(Entity, Entity)>, e: Entity) -> (r: Option<usize>)
    ensures
        match r {
            Some(i) => i < v@.len() && v@[i as int].0 == e,
            None => !assoc_has(v@, e),
        },
{
    let mut i: usize = 0;
    while i < v.len()
        invariant
            i <= v@.len(),
            forall|j: int| 0 <= j < i ==> (#[trigger] v@[j]).0 != e,
        decreases v@.len() - i,
    {
        if v[i].0 == e {
            return Some(i);
        }
        i = i + 1;
    }
    proof {
        if assoc_has(v@, e) {
            let j = choose|j: int| 0 <= j < v@.len() && (#[trigger] v@[j]).0 == e;
            assert(v@[j].0 != e);
        }
    }
    None
}

/// The client's sole authority for translating entity identities: a
/// bidirectional map between server entities and client entities.
///
/// An entry is created when an entity is first replicated, or ahead of time
/// for a client-predicted spawn, and torn down when its despawn is applied.
pub struct ServerEntityMap {
    to_client: Vec<(Entity, Entity)>,
    to_server: Vec<(Entity, Entity)>,
}

impl ServerEntityMap {
    pub closed spec fn to_client_view(self) -> Seq<(Entity, Entity)> {
        self.to_client@
    }

    pub closed spec fn to_server_view(self) -> Seq<(Entity, Entity)> {
        self.to_server@
    }

    /// The client entity standing for server entity `s`, if any.
    pub open spec fn spec_to_client(self, s: Entity) -> Option<Entity> {
        assoc_get(self.to_client_view(), s)
    }

    /// The server entity behind client entity `c`, if any.
    pub open spec fn spec_to_server(self, c: Entity) -> Option<Entity> {
        assoc_get(self.to_server_view(), c)
    }

    /// Each direction maps uniquely and the two are exact inverses: a
    /// server entity maps to exactly one client entity, whose reverse entry
    /// points back at it.
    pub open spec fn wf(self) -> bool {
        &&& assoc_unique(self.to_client_view())
        &&& assoc_unique(self.to_server_view())
        &&& forall|s: Entity| match #[trigger] self.spec_to_client(s) {
            Some(c) => self.spec_to_server(c) == Some(s),
            None => true,
        }
        &&& forall|c: Entity| match #[trigger] self.spec_to_server(c) {
            Some(s) => self.spec_to_client(s) == Some(c),
            None => true,
        }
    }

    pub fn new() -> (r: Self)
        ensures
            r.wf(),
            forall|e: Entity| r.spec_to_client(e) is None && r.spec_to_server(e) is None,
    {
        let r = ServerEntityMap { to_client: Vec::new(), to_server: Vec::new() };
        proof {
            assert forall|e: Entity| r.spec_to_client(e) is None
                && r.spec_to_server(e) is None by {
                if assoc_has(r.to_client@, e) {
                    lemma_assoc_get_some(r.to_client@, e);
                }
                if assoc_has(r.to_server@, e) {
                    lemma_assoc_get_some(r.to_server@, e);
                }
            }
        }
        r
    }

    pub fn len(&self) -> (r: usize)
        ensures
            r == self.to_client_view().len(),
    {
        self.to_client.len()
    }

    /// Both directions are empty.
    pub fn is_empty(&self) -> (r: bool)
        ensures
            r == (self.to_client_view().len() == 0 && self.to_server_view().len() == 0),
    {
        self.to_client.len() == 0 && self.to_server.len() == 0
    }

    /// Looks up the client entity standing for server entity `s`.
    pub fn to_client(&self, s: Entity) -> (r: Option<Entity>)
        requires
            self.wf(),
        ensures
            r == self.spec_to_client(s),
    {
        match find_entity_key(&self.to_client, s) {
            Some(i) => {
                proof {
                    lemma_assoc_get_at(self.to_client@, s, i as int);
                }
                Some(self.to_client[i].1)
            },
            None => None,
        }
    }

    /// Looks up the server entity behind client entity `c`.
    pub fn to_server(&self, c: Entity) -> (r: Option<Entity>)
        requires
            self.wf(),
        ensures
            r == self.spec_to_server(c),
    {
        match find_entity_key(&self.to_server, c) {
            Some(i) => {
                proof {
                    lemma_assoc_get_at(self.to_server@, c, i as int);
                }
                Some(self.to_server[i].1)
            },
            None => None,
        }
    }

    /// Installs the pair `(server, client)`, making it the one translation
    /// for both identities: any stale pair either of them was part of is
    /// torn down first.
    pub fn insert(&mut self, server: Entity, client: Entity)
        requires
            old(self).wf(),
        ensures
            final(self).wf(),
            final(self).spec_to_client(server) == Some(client),
            final(self).spec_to_server(client) == Some(server),
            forall|s: Entity| s != server && old(self).spec_to_client(s) != Some(client)
                ==> final(self).spec_to_client(s) == old(self).spec_to_client(s),
            forall|c: Entity| c != client && old(self).spec_to_server(c) != Some(server)
                ==> final(self).spec_to_server(c) == old(self).spec_to_server(c),
            // Installing a pair never gives any other key a new image: at
            // most it tears a stale pair down.
            forall|s: Entity| s != server
                ==> final(self).spec_to_client(s) == old(self).spec_to_client(s)
                    || final(self).spec_to_client(s) is None,
    {
        let ghost pre = *self;
        self.remove_by_server(server);
        let ghost mid1 = *self;
        self.remove_by_client(client);
        let ghost mid = *self;
        proof {
            assert forall|s: Entity| s != server implies
                mid.spec_to_client(s) == pre.spec_to_client(s)
                    || mid.spec_to_client(s) is None by {
                match pre.spec_to_client(server) {
                    Some(_) => {
                        assert(mid1.spec_to_client(s) == pre.spec_to_client(s));
                    },
                    None => {
                        assert(mid1 == pre);
                    },
                }
                match mid1.spec_to_server(client) {
                    Some(s2) => {
                        if s != s2 {
                            assert(mid.spec_to_client(s) == mid1.spec_to_client(s));
                        } else {
                            assert(mid.spec_to_client(s2) is None);
                        }
                    },
                    None => {
                        assert(mid == mid1);
                    },
                }
            }
        }
        let ghost tc = self.to_client@;
        let ghost ts = self.to_server@;
        proof {
            assert(assoc_get(tc, server) is None);
            assert(assoc_get(ts, client) is None);
        }
        self.to_client.push((server, client));
        self.to_server.push((client, server));
        proof {
            lemma_assoc_get_push(tc, server, client, server);
            lemma_assoc_get_push(ts, client, server, client);
            assert forall|s: Entity| s != server implies
                assoc_get(self.to_client@, s) == assoc_get(tc, s) by {
                lemma_assoc_get_push(tc, server, client, s);
            }
            assert forall|c: Entity| c != client implies
                assoc_get(self.to_server@, c) == assoc_get(ts, c) by {
                lemma_assoc_get_push(ts, client, server, c);
            }
            assert forall|x: Entity| match #[trigger] self.spec_to_client(x) {
                Some(y) => self.spec_to_server(y) == Some(x),
                None => true,
            } by {
                if x != server && self.spec_to_client(x) is Some {
                    let y = self.spec_to_client(x).unwrap();
                    assert(mid.spec_to_client(x) == Some(y));
                    assert(mid.spec_to_server(y) == Some(x));
                    assert(y != client) by {
                        if y == client {
                            assert(mid.spec_to_server(client) == Some(x));
                        }
                    }
                }
            }
            assert forall|y: Entity| match #[trigger] self.spec_to_server(y) {
                Some(x) => self.spec_to_client(x) == Some(y),
                None => true,
            } by {
                if y != client && self.spec_to_server(y) is Some {
                    let x = self.spec_to_server(y).unwrap();
                    assert(mid.spec_to_server(y) == Some(x));
                    assert(mid.spec_to_client(x) == Some(y));
                    assert(x != server) by {
                        if x == server {
                            assert(mid.spec_to_client(server) == Some(y));
                        }
                    }
                }
            }
        }
    }

    /// Tears down the pair keyed by server entity `s`, if one exists; a
    /// repeated call finds nothing and does nothing.
    pub fn remove_by_server(&mut self, s: Entity)
        requires
            old(self).wf(),
        ensures
            final(self).wf(),
            final(self).spec_to_client(s) is None,
            match old(self).spec_to_client(s) {
                Some(c) => {
                    &&& final(self).spec_to_server(c) is None
                    &&& forall|x: Entity| x != s
                        ==> final(self).spec_to_client(x) == old(self).spec_to_client(x)
                    &&& forall|y: Entity| y != c
                        ==> final(self).spec_to_server(y) == old(self).spec_to_server(y)
                },
                None => *final(self) == *old(self),
            },
    {
        let i = match find_entity_key(&self.to_client, s) {
            Some(i) => i,
            None => {
                proof {
                    if assoc_has(self.to_client@, s) {
                        lemma_assoc_get_some(self.to_client@, s);
                    }
                }
                return;
            },
        };
        proof {
            lemma_assoc_get_at(self.to_client@, s, i as int);
        }
        let client = self.to_client[i].1;
        let ghost tc = self.to_client@;
        self.to_client.remove(i);
        proof {
            assert(self.to_client@ =~= tc.remove(i as int));
            lemma_assoc_get_remove(tc, i as int, s);
            assert forall|x: Entity| x != s implies
                assoc_get(self.to_client@, x) == assoc_get(tc, x) by {
                lemma_assoc_get_remove(tc, i as int, x);
            }
        }
        match find_entity_key(&self.to_server, client) {
            Some(j) => {
                proof {
                    lemma_assoc_get_at(self.to_server@, client, j as int);
                }
                let ghost ts = self.to_server@;
                self.to_server.remove(j);
                proof {
                    assert(self.to_server@ =~= ts.remove(j as int));
                    lemma_assoc_get_remove(ts, j as int, client);
                    assert forall|y: Entity| y != client implies
                        assoc_get(self.to_server@, y) == assoc_get(ts, y) by {
                        lemma_assoc_get_remove(ts, j as int, y);
                    }
                    assert forall|x: Entity| match #[trigger] self.spec_to_client(x) {
                        Some(y) => self.spec_to_server(y) == Some(x),
                        None => true,
                    } by {
                        if self.spec_to_client(x) is Some {
                            let y = self.spec_to_client(x).unwrap();
                            assert(x != s);
                            assert(old(self).spec_to_client(x) == Some(y));
                            assert(old(self).spec_to_server(y) == Some(x));
                            assert(y != client) by {
                                if y == client {
                                    assert(old(self).spec_to_server(client) == Some(x));
                                    assert(old(self).spec_to_client(s) == Some(client));
                                    assert(old(self).spec_to_server(client) == Some(s));
                                }
                            }
                        }
                    }
                    assert forall|y: Entity| match #[trigger] self.spec_to_server(y) {
                        Some(x) => self.spec_to_client(x) == Some(y),
                        None => true,
                    } by {
                        if self.spec_to_server(y) is Some {
                            let x = self.spec_to_server(y).unwrap();
                            assert(y != client);
                            assert(old(self).spec_to_server(y) == Some(x));
                            assert(old(self).spec_to_client(x) == Some(y));
                            assert(x != s) by {
                                if x == s {
                                    assert(old(self).spec_to_client(s) == Some(y));
                                }
                            }
                        }
                    }
                }
            },
            None => {
                proof {
                    // The inverse invariant guarantees the reverse entry
                    // exists whenever the forward one did.
                    assert(old(self).spec_to_server(client) == Some(s));
                    if !assoc_has(ts_view(self), client) {
                        assert(assoc_get(old(self).to_server_view(), client) is None);
                    }
                    assert(false);
                }
            },
        }
    }

    /// Tears down the pair keyed by client entity `c`, if one exists; a
    /// repeated call finds nothing and does nothing.
    pub fn remove_by_client(&mut self, c: Entity)
        requires
            old(self).wf(),
        ensures
            final(self).wf(),
            final(self).spec_to_server(c) is None,
            match old(self).spec_to_server(c) {
                Some(s) => {
                    &&& final(self).spec_to_client(s) is None
                    &&& forall|y: Entity| y != c
                        ==> final(self).spec_to_server(y) == old(self).spec_to_server(y)
                    &&& forall|x: Entity| x != s
                        ==> final(self).spec_to_client(x) == old(self).spec_to_client(x)
                },
                None => *final(self) == *old(self),
            },
    {
        let server = match self.to_server(c) {
            Some(server) => server,
            None => {
                return;
            },
        };
        self.remove_by_server(server);
    }

    /// Forgets every pair.
    pub fn clear(&mut self)
        ensures
            final(self).wf(),
            final(self).to_client_view().len() == 0,
            final(self).to_server_view().len() == 0,
            forall|e: Entity| final(self).spec_to_client(e) is None
                && final(self).spec_to_server(e) is None,
    {
        self.to_client.clear();
        self.to_server.clear();
        proof {
            assert forall|e: Entity| final(self).spec_to_client(e) is None
                && final(self).spec_to_server(e) is None by {
                if assoc_has(self.to_client@, e) {
                    lemma_assoc_get_some(self.to_client@, e);
                }
                if assoc_has(self.to_server@, e) {
                    lemma_assoc_get_some(self.to_server@, e);
                }
            }
        }
    }
}

/// Helper naming for the reverse view inside proofs.
spec fn ts_view(m: &ServerEntityMap) -> Seq<(Entity, Entity)> {
    m.to_server_view()
}

/// The two directions of a well-formed map are exact inverses: a server
/// entity maps to a client entity exactly when that client entity maps
/// back to it.
pub proof fn lemma_map_inverse(m: ServerEntityMap, s: Entity, c: Entity)
    requires
        m.wf(),
    ensures
        (m.spec_to_client(s) == Some(c)) <==> (m.spec_to_server(c) == Some(s)),
{
}

/// One pre-registered mapping for a client-predicted spawn.
#[derive(Clone, Copy, Debug, PartialEq, Eq, Structural)]
pub struct ClientMapping {
    pub server_entity: Entity,
    pub client_entity: Entity,
}

/// Server-side registry of mappings to send ahead of entity data: for each
/// client, the pairs its change message must open with.
pub struct ClientEntityMap {
    mappings: Vec<(ClientId, Vec<ClientMapping>)>,
}

impl ClientEntityMap {
    pub closed spec fn view_of(self) -> Seq<(ClientId, Seq<ClientMapping>)> {
        self.mappings@.map_values(
            |p: (ClientId, Vec<ClientMapping>)| (p.0, p.1@),
        )
    }

    /// The mappings queued for `id`.
    pub open spec fn spec_mappings(self, id: ClientId) -> Seq<ClientMapping> {
        match assoc_get(self.view_of(), id) {
            Some(s) => s,
            None => Seq::empty(),
        }
    }

    pub open spec fn wf(self) -> bool {
        assoc_unique(self.view_of())
    }

    pub fn new() -> (r: Self)
        ensures
            r.wf(),
            forall|id: ClientId| r.spec_mappings(id).len() == 0,
    {
        let r = ClientEntityMap { mappings: Vec::new() };
        proof {
            assert(r.view_of() =~= Seq::<(ClientId, Seq<ClientMapping>)>::empty());
            assert forall|id: ClientId| r.spec_mappings(id).len() == 0 by {
                if assoc_has(r.view_of(), id) {
                    lemma_assoc_get_some(r.view_of(), id);
                }
            }
        }
        r
    }

    /// Queues one mapping to be sent to `id` ahead of any entity data.
    pub fn insert(&mut self, id: ClientId, mapping: ClientMapping)
        requires
            old(self).wf(),
        ensures
            final(self).wf(),
            final(self).spec_mappings(id) == old(self).spec_mappings(id).push(mapping),
            forall|x: ClientId| x != id
                ==> final(self).spec_mappings(x) == old(self).spec_mappings(x),
    {
        let ghost pre = self.view_of();
        let mut i: usize = 0;
        while i < self.mappings.len()
            invariant
                i <= self.mappings@.len(),
                pre == self.view_of(),
                old(self).wf(),
                self.mappings@ == old(self).mappings@,
                forall|j: int| 0 <= j < i ==> (#[trigger] pre[j]).0 != id,
            decreases self.mappings@.len() - i,
        {
            if self.mappings[i].0 == id {
                proof {
                    assert(pre[i as int].0 == id);
                    lemma_assoc_get_at(pre, id, i as int);
                }
                let entry = &mut self.mappings[i];
                entry.1.push(mapping);
                proof {
                    assert(self.view_of() =~= pre.update(
                        i as int, (pre[i as int].0, pre[i as int].1.push(mapping))));
                    crate::assoc::lemma_assoc_get_update(
                        pre, i as int, pre[i as int].1.push(mapping), id);
                    assert forall|x: ClientId| x != id implies
                        assoc_get(self.view_of(), x) == assoc_get(pre, x) by {
                        crate::assoc::lemma_assoc_get_update(
                            pre, i as int, pre[i as int].1.push(mapping), x);
                    }
                }
                return;
            }
            proof {
                assert(pre[i as int].0 != id);
            }
            i = i + 1;
        }
        proof {
            assert(!assoc_has(pre, id)) by {
                if assoc_has(pre, id) {
                    let j = choose|j: int| 0 <= j < pre.len() && (#[trigger] pre[j]).0 == id;
                    assert(pre[j].0 != id);
                }
            }
            assert(assoc_get(pre, id) is None);
        }
        let mut fresh: Vec<ClientMapping> = Vec::new();
        fresh.push(mapping);
        let ghost fresh_view = fresh@;
        self.mappings.push((id, fresh));
        proof {
            assert(self.view_of() =~= pre.push((id, fresh_view)));
            lemma_assoc_get_push(pre, id, fresh_view, id);
            assert(old(self).spec_mappings(id).push(mapping) =~= fresh_view);
            assert forall|x: ClientId| x != id implies
                assoc_get(self.view_of(), x) == assoc_get(pre, x) by {
                lemma_assoc_get_push(pre, id, fresh_view, x);
            }
        }
    }

    /// Hands out and consumes the mappings queued for `id`: once sent, a
    /// mapping is never sent again.
    pub fn take_mappings(&mut self, id: ClientId) -> (r: Vec<ClientMapping>)
        requires
            old(self).wf(),
        ensures
            final(self).wf(),
            r@ == old(self).spec_mappings(id),
            final(self).spec_mappings(id).len() == 0,
            forall|x: ClientId| x != id
                ==> final(self).spec_mappings(x) == old(self).spec_mappings(x),
    {
        let ghost pre = self.view_of();
        let mut i: usize = 0;
        while i < self.mappings.len()
            invariant
                i <= self.mappings@.len(),
                pre == self.view_of(),
                old(self).wf(),
                self.mappings@ == old(self).mappings@,
                forall|j: int| 0 <= j < i ==> (#[trigger] pre[j]).0 != id,
            decreases self.mappings@.len() - i,
        {
            if self.mappings[i].0 == id {
                proof {
                    assert(pre[i as int].0 == id);
                    lemma_assoc_get_at(pre, id, i as int);
                }
                let (_, taken) = self.mappings.remove(i);
                proof {
                    assert(self.view_of() =~= pre.remove(i as int));
                    lemma_assoc_get_remove(pre, i as int, id);
                    assert forall|x: ClientId| x != id implies
                        assoc_get(self.view_of(), x) == assoc_get(pre, x) by {
                        lemma_assoc_get_remove(pre, i as int, x);
                    }
                }
                return taken;
            }
            proof {
                assert(pre[i as int].0 != id);
            }
            i = i + 1;
        }
        proof {
            assert(!assoc_has(pre, id)) by {
                if assoc_has(pre, id) {
                    let j = choose|j: int| 0 <= j < pre.len() && (#[trigger] pre[j]).0 == id;
                    assert(pre[j].0 != id);
                }
            }
        }
        Vec::new()
    }
}

} // verus!
