//! The registry of live connections built at startup, the catalog of the
//! tools they expose, and the routing of invocations back to their owners.
use vstd::prelude::*;
use crate::catalog::{ToolEntry, ToolSpec, ToolSpecView, ToolView, qualify, entry_of, make_entry, lemma_qualify_injective};
use crate::config::{well_formed_name, names_valid};

verus! {

/// Why a server is missing from the registry or lost its place in it.
#[derive(Debug, Clone, PartialEq, Eq)]
pub enum ServerError {
    /// The connection attempt failed.
    Connection(String),
    /// The server connected but its tools could not be listed.
    Listing(String),
    /// The connection succeeded under a name that is malformed or already live.
    Rejected,
    /// The server listed the same tool name twice.
    DuplicateTool(String),
    /// A listing arrived for a server that is not live.
    NotConnected,
}

/// One server left out, with the reason.
#[derive(Debug, Clone, PartialEq, Eq)]
pub struct Failure {
    pub name: String,
    pub error: ServerError,
}

/// An invocation that cannot be routed to a live connection.
#[derive(Debug, Clone, PartialEq, Eq)]
pub enum RoutingError {
    UnknownTool(String),
}

/// The outcome of one connection attempt: the server's name and either the
/// live connection or the transport's error text.
pub type Outcome<C> = (String, Result<C, String>);

/// Live connections keyed by server name, and the catalog of their tools.
pub struct McpManager<C> {
    clients: Vec<(String, C)>,
    tools: Vec<ToolEntry>,
}

pub open spec fn has_client<C>(clients: Seq<(String, C)>, name: Seq<char>) -> bool {
    exists|i: int| 0 <= i < clients.len() && clients[i].0@ == name
}

/// A successful connection under `name` is taken into a registry `clients`.
pub open spec fn admissible<C>(clients: Seq<(String, C)>, name: Seq<char>) -> bool {
    well_formed_name(name) && !has_client(clients, name)
}

/// The registry after the outcomes `outs`, taken in order.
pub open spec fn startup_live<C>(outs: Seq<Outcome<C>>) -> Seq<(String, C)>
    decreases outs.len(),
{
    if outs.len() == 0 {
        Seq::empty()
    } else {
        let prev = startup_live(outs.drop_last());
        let o = outs.last();
        match o.1 {
            Ok(c) => if admissible(prev, o.0@) {
                prev.push((o.0, c))
            } else {
                prev
            },
            Err(_) => prev,
        }
    }
}

/// The failures reported after the outcomes `outs`, taken in order.
pub open spec fn startup_failures<C>(outs: Seq<Outcome<C>>) -> Seq<Failure>
    decreases outs.len(),
{
    if outs.len() == 0 {
        Seq::empty()
    } else {
        let prev = startup_failures(outs.drop_last());
        let o = outs.last();
        match o.1 {
            Ok(_) => if admissible(startup_live(outs.drop_last()), o.0@) {
                prev
            } else {
                prev.push(Failure { name: o.0, error: ServerError::Rejected })
            },
            Err(e) => prev.push(Failure { name: o.0, error: ServerError::Connection(e) }),
        }
    }
}

/// How many of the outcomes are live connections.
pub open spec fn count_connected<C>(outs: Seq<Outcome<C>>) -> nat
    decreases outs.len(),
{
    if outs.len() == 0 {
        0
    } else {
        count_connected(outs.drop_last()) + if outs.last().1 is Ok {
            1nat
        } else {
            0nat
        }
    }
}

pub open spec fn outcome_names<C>(outs: Seq<Outcome<C>>) -> Seq<Seq<char>> {
    outs.map_values(|o: Outcome<C>| o.0@)
}

/// Server names are well formed and pairwise distinct.
pub open spec fn registry_wf<C>(clients: Seq<(String, C)>) -> bool {
    &&& forall|i: int| 0 <= i < clients.len() ==> well_formed_name(#[trigger] clients[i].0@)
    &&& forall|i: int, j: int| 0 <= i < j < clients.len() ==> clients[i].0@ != clients[j].0@
}

/// Every tool belongs to a live server, carries its address, and no server
/// has two tools of one name.
pub open spec fn catalog_wf<C>(clients: Seq<(String, C)>, tools: Seq<ToolView>) -> bool {
    &&& forall|i: int| 0 <= i < tools.len() ==> has_client(clients, #[trigger] tools[i].server)
    &&& forall|i: int|
        0 <= i < tools.len() ==> (#[trigger] tools[i]).qualified == qualify(tools[i].server, tools[i].name)
    &&& forall|i: int, j: int|
        0 <= i < j < tools.len() ==> !(tools[i].server == tools[j].server && tools[i].name == tools[j].name)
}

/// The catalog `tools` with every tool of server `name` taken out.
pub open spec fn without_server(tools: Seq<ToolView>, name: Seq<char>) -> Seq<ToolView>
    decreases tools.len(),
{
    if tools.len() == 0 {
        tools
    } else {
        let prev = without_server(tools.drop_last(), name);
        if tools.last().server == name {
            prev
        } else {
            prev.push(tools.last())
        }
    }
}

/// `new` is the registry `old` with the connection named `name` taken out,
/// if there was one.
pub open spec fn without_client<C>(old: Seq<(String, C)>, new: Seq<(String, C)>, name: Seq<char>) -> bool {
    if has_client(old, name) {
        exists|i: int| 0 <= i < old.len() && old[i].0@ == name && new == old.remove(i)
    } else {
        new == old
    }
}

/// What stays after removing a server's tools keeps to the catalog's rules,
/// over any registry that still holds the other servers.
proof fn lemma_without_server<C>(
    old_clients: Seq<(String, C)>,
    new_clients: Seq<(String, C)>,
    tools: Seq<ToolView>,
    name: Seq<char>,
)
    requires
        catalog_wf(old_clients, tools),
        forall|k: int| 0 <= k < old_clients.len() && old_clients[k].0@ != name
            ==> has_client(new_clients, #[trigger] old_clients[k].0@),
    ensures
        catalog_wf(new_clients, without_server(tools, name)),
        forall|i: int| 0 <= i < without_server(tools, name).len() ==>
            exists|j: int| 0 <= j < tools.len() && tools[j] == #[trigger] without_server(tools, name)[i],
        forall|i: int| 0 <= i < without_server(tools, name).len() ==>
            (#[trigger] without_server(tools, name)[i]).server != name,
    decreases tools.len(),
{
    if tools.len() > 0 {
        let prev = tools.drop_last();
        assert forall|i: int| 0 <= i < prev.len() implies has_client(old_clients, #[trigger] prev[i].server) by {
            assert(prev[i] == tools[i]);
        }
        assert forall|i: int| 0 <= i < prev.len() implies (#[trigger] prev[i]).qualified
            == qualify(prev[i].server, prev[i].name) by {
            assert(prev[i] == tools[i]);
        }
        assert forall|i: int, j: int| 0 <= i < j < prev.len() implies
            !(prev[i].server == prev[j].server && prev[i].name == prev[j].name) by {
            assert(prev[i] == tools[i] && prev[j] == tools[j]);
        }
        lemma_without_server(old_clients, new_clients, prev, name);
        let w = without_server(prev, name);
        let last = tools.last();
        if last.server != name {
            let r = w.push(last);
            assert(has_client(old_clients, tools[tools.len() - 1].server));
            let k = choose|k: int| 0 <= k < old_clients.len() && old_clients[k].0@ == last.server;
            assert(has_client(new_clients, old_clients[k].0@));
            assert forall|i: int, j: int| 0 <= i < j < r.len() implies
                !(r[i].server == r[j].server && r[i].name == r[j].name) by {
                if j == r.len() - 1 {
                    assert(r[i] == w[i]);
                    let t = choose|t: int| 0 <= t < prev.len() && prev[t] == w[i];
                    assert(tools[t] == prev[t]);
                } else {
                    assert(r[i] == w[i] && r[j] == w[j]);
                }
            }
            assert forall|i: int| 0 <= i < r.len() implies
                exists|j: int| 0 <= j < tools.len() && tools[j] == #[trigger] r[i] by {
                if i < w.len() {
                    assert(r[i] == w[i]);
                    let t = choose|t: int| 0 <= t < prev.len() && prev[t] == w[i];
                    assert(tools[t] == prev[t]);
                } else {
                    assert(tools[tools.len() - 1] == r[i]);
                }
            }
        } else {
            assert forall|i: int| 0 <= i < w.len() implies
                exists|j: int| 0 <= j < tools.len() && tools[j] == #[trigger] w[i] by {
                let t = choose|t: int| 0 <= t < prev.len() && prev[t] == w[i];
                assert(tools[t] == prev[t]);
            }
        }
    }
}

pub open spec fn specs_view(tools: Seq<ToolSpec>) -> Seq<ToolSpecView> {
    tools.map_values(|t: ToolSpec| t@)
}

/// The catalog entries for a listing of `server`, in listing order.
pub open spec fn listed_entries(server: Seq<char>, specs: Seq<ToolSpecView>) -> Seq<ToolView> {
    specs.map_values(|t: ToolSpecView| entry_of(server, t))
}

/// Tool `i` of a listing of `server` has a name that no earlier tool of the
/// listing has, nor any tool of that server already in the catalog `cat`.
pub open spec fn fresh_tool(cat: Seq<ToolView>, server: Seq<char>, specs: Seq<ToolSpecView>, i: int) -> bool {
    &&& forall|j: int| 0 <= j < i ==> specs[j].name != specs[i].name
    &&& forall|t: int| 0 <= t < cat.len() && cat[t].server == server ==> cat[t].name != specs[i].name
}

pub open spec fn listing_fresh(cat: Seq<ToolView>, server: Seq<char>, specs: Seq<ToolSpecView>) -> bool {
    forall|i: int| 0 <= i < specs.len() ==> fresh_tool(cat, server, specs, i)
}

/// Some entry of the catalog `cat` has the address `q`.
pub open spec fn addressed(cat: Seq<ToolView>, q: Seq<char>) -> bool {
    exists|p: int| 0 <= p < cat.len() && cat[p].qualified == q
}

/// No two tools of a well-formed catalog share an address.
proof fn lemma_catalog_addresses_unique<C>(clients: Seq<(String, C)>, cat: Seq<ToolView>)
    requires
        registry_wf(clients),
        catalog_wf(clients, cat),
    ensures
        forall|i: int, j: int| 0 <= i < j < cat.len() ==> cat[i].qualified != cat[j].qualified,
{
    assert forall|i: int, j: int| 0 <= i < j < cat.len() implies cat[i].qualified != cat[j].qualified by {
        assert(has_client(clients, cat[i].server));
        assert(has_client(clients, cat[j].server));
        let a = choose|a: int| 0 <= a < clients.len() && clients[a].0@ == cat[i].server;
        let b = choose|b: int| 0 <= b < clients.len() && clients[b].0@ == cat[j].server;
        assert(well_formed_name(clients[a].0@) && well_formed_name(clients[b].0@));
        if cat[i].qualified == cat[j].qualified {
            lemma_qualify_injective(cat[i].server, cat[i].name, cat[j].server, cat[j].name);
        }
    }
}

/// After a listing of `server` is added, each of its tools is found at the
/// server-qualified address of its name.
pub proof fn lemma_listing_addressable(cat: Seq<ToolView>, server: Seq<char>, specs: Seq<ToolSpecView>)
    ensures
        forall|i: int| 0 <= i < specs.len() ==>
            addressed(cat + listed_entries(server, specs), #[trigger] qualify(server, specs[i].name)),
{
    let all = cat + listed_entries(server, specs);
    assert forall|i: int| 0 <= i < specs.len() implies
        addressed(all, #[trigger] qualify(server, specs[i].name)) by {
        assert(all[cat.len() + i] == entry_of(server, specs[i]));
    }
}

/// Removing a server's tools leaves no entry at any of their addresses.
proof fn lemma_catalog_unroutable<C>(
    clients: Seq<(String, C)>,
    cat: Seq<ToolView>,
    name: Seq<char>,
    q: Seq<char>,
)
    requires
        registry_wf(clients),
        catalog_wf(clients, cat),
        exists|p: int| 0 <= p < cat.len() && cat[p].server == name && cat[p].qualified == q,
    ensures
        !addressed(without_server(cat, name), q),
{
    lemma_without_server(clients, clients, cat, name);
    let p = choose|p: int| 0 <= p < cat.len() && cat[p].server == name && cat[p].qualified == q;
    let w = without_server(cat, name);
    if addressed(w, q) {
        let x = choose|x: int| 0 <= x < w.len() && w[x].qualified == q;
        let j = choose|j: int| 0 <= j < cat.len() && cat[j] == w[x];
        assert(has_client(clients, cat[j].server));
        assert(has_client(clients, cat[p].server));
        let a = choose|a: int| 0 <= a < clients.len() && clients[a].0@ == cat[j].server;
        let b = choose|b: int| 0 <= b < clients.len() && clients[b].0@ == cat[p].server;
        assert(well_formed_name(clients[a].0@) && well_formed_name(clients[b].0@));
        lemma_qualify_injective(cat[j].server, cat[j].name, cat[p].server, cat[p].name);
    }
}

/// Every live connection in `clients` comes from one of the outcomes.
proof fn lemma_live_from_outcomes<C>(outs: Seq<Outcome<C>>)
    ensures
        forall|i: int| 0 <= i < startup_live(outs).len() ==>
            exists|j: int| 0 <= j < outs.len() && outs[j].0@ == (#[trigger] startup_live(outs)[i]).0@,
        registry_wf(startup_live(outs)),
    decreases outs.len(),
{
    if outs.len() > 0 {
        let prev = outs.drop_last();
        lemma_live_from_outcomes(prev);
        assert forall|i: int| 0 <= i < startup_live(outs).len() implies
            exists|j: int| 0 <= j < outs.len() && outs[j].0@ == (#[trigger] startup_live(outs)[i]).0@ by {
            if i < startup_live(prev).len() {
                let j = choose|j: int| 0 <= j < prev.len() && prev[j].0@ == startup_live(prev)[i].0@;
                assert(outs[j] == prev[j]);
            } else {
                assert(outs[outs.len() - 1].0@ == startup_live(outs)[i].0@);
            }
        }
    }
}

/// With distinct, well-formed names, each outcome lands either among the live
/// connections or among the failures: N outcomes of which M are errors give
/// N - M live connections and M failures.
pub proof fn lemma_startup_counts<C>(outs: Seq<Outcome<C>>)
    requires
        names_valid(outcome_names(outs)),
    ensures
        startup_live(outs).len() == count_connected(outs),
        startup_failures(outs).len() == outs.len() - count_connected(outs),
    decreases outs.len(),
{
    if outs.len() > 0 {
        let prev = outs.drop_last();
        let names = outcome_names(outs);
        assert(outcome_names(prev) =~= names.drop_last());
        lemma_startup_counts(prev);
        lemma_live_from_outcomes(prev);
        let last = outs.last();
        assert(well_formed_name(names[outs.len() - 1]));
        if has_client(startup_live(prev), last.0@) {
            let i = choose|i: int| 0 <= i < startup_live(prev).len() && startup_live(prev)[i].0@ == last.0@;
            let j = choose|j: int| 0 <= j < prev.len() && prev[j].0@ == (#[trigger] startup_live(prev)[i]).0@;
            assert(names[j] == names[outs.len() - 1]);
        }
    }
}

impl<C> McpManager<C> {
    pub closed spec fn live(&self) -> Seq<(String, C)> {
        self.clients@
    }

    pub closed spec fn catalog(&self) -> Seq<ToolView> {
        self.tools@.map_values(|t: ToolEntry| t@)
    }

    pub open spec fn wf(&self) -> bool {
        registry_wf(self.live()) && catalog_wf(self.live(), self.catalog())
    }

    /// The live connections, keyed by server name.
    pub fn clients(&self) -> (r: &Vec<(String, C)>)
        ensures
            r@ == self.live(),
    {
        &self.clients
    }

    /// The catalog, in the order the listings were taken in.
    pub fn tools(&self) -> (r: &Vec<ToolEntry>)
        ensures
            r@.map_values(|t: ToolEntry| t@) == self.catalog(),
    {
        &self.tools
    }

    /// The catalog entry at position `p`.
    pub fn tool(&self, p: usize) -> (r: &ToolEntry)
        requires
            p < self.catalog().len(),
        ensures
            r@ == self.catalog()[p as int],
    {
        &self.tools[p]
    }

    /// No two tools of the catalog share an address, even where two servers
    /// offer tools of the same name.
    pub proof fn lemma_addresses_unique(&self)
        requires
            self.wf(),
        ensures
            forall|i: int, j: int| 0 <= i < j < self.catalog().len()
                ==> self.catalog()[i].qualified != self.catalog()[j].qualified,
    {
        lemma_catalog_addresses_unique(self.live(), self.catalog());
    }

    /// Once the server `name` is torn down, which leaves the catalog
    /// `without_server(self.catalog(), name)`, the address `q` of any of its
    /// tools is no longer in the catalog, so `route` reports it as unknown.
    pub proof fn lemma_torn_down_unroutable(&self, name: Seq<char>, q: Seq<char>)
        requires
            self.wf(),
            exists|p: int| 0 <= p < self.catalog().len()
                && self.catalog()[p].server == name && self.catalog()[p].qualified == q,
        ensures
            !addressed(without_server(self.catalog(), name), q),
    {
        lemma_catalog_unroutable(self.live(), self.catalog(), name, q);
    }

    /// Position of the live connection named `name`.
    fn find_client(&self, name: &String) -> (r: Option<usize>)
        ensures
            r matches Some(i) ==> i < self.live().len() && self.live()[i as int].0@ == name@,
            r is None ==> !has_client(self.live(), name@),
    {
        let mut i: usize = 0;
        while i < self.clients.len()
            invariant
                i <= self.clients@.len(),
                forall|j: int| 0 <= j < i ==> self.clients@[j].0@ != name@,
            decreases self.clients@.len() - i,
        {
            if self.clients[i].0 == *name {
                return Some(i);
            }
            i = i + 1;
        }
        None
    }

    /// Takes the connection named `name` out of the registry, and all of its
    /// tools out of the catalog with it. Returns whether it was live.
    pub fn tear_down(&mut self, name: &String) -> (r: bool)
        requires
            old(self).wf(),
        ensures
            final(self).wf(),
            r == has_client(old(self).live(), name@),
            without_client(old(self).live(), final(self).live(), name@),
            final(self).catalog() == without_server(old(self).catalog(), name@),
    {
        let ghost old_clients = self.clients@;
        let ghost old_cat = self.catalog();
        let found = self.find_client(name);
        match found {
            Some(k) => {
                self.clients.remove(k);
            },
            None => {},
        }
        let ghost new_clients = self.clients@;
        proof {
            assert forall|k: int| 0 <= k < old_clients.len() && old_clients[k].0@ != name@
                implies has_client(new_clients, #[trigger] old_clients[k].0@) by {
                if let Some(f) = found {
                    if k < f {
                        assert(new_clients[k] == old_clients[k]);
                    } else {
                        assert(new_clients[k - 1] == old_clients[k]);
                    }
                } else {
                    assert(new_clients[k] == old_clients[k]);
                }
            }
            lemma_without_server(old_clients, new_clients, old_cat, name@);
            if let Some(f) = found {
                assert forall|i: int, j: int| 0 <= i < j < new_clients.len() implies
                    new_clients[i].0@ != new_clients[j].0@ by {
                    let oi = if i < f { i } else { i + 1 };
                    let oj = if j < f { j } else { j + 1 };
                    assert(new_clients[i] == old_clients[oi] && new_clients[j] == old_clients[oj]);
                }
                assert forall|i: int| 0 <= i < new_clients.len() implies
                    well_formed_name(#[trigger] new_clients[i].0@) by {
                    let oi = if i < f { i } else { i + 1 };
                    assert(new_clients[i] == old_clients[oi]);
                }
            }
            assert(old_cat.take(0) =~= Seq::<ToolView>::empty());
            assert(old_cat.skip(0) =~= old_cat);
        }
        let mut i: usize = 0;
        let ghost mut j: int = 0;
        while i < self.tools.len()
            invariant
                self.clients@ == new_clients,
                0 <= j <= old_cat.len(),
                i == without_server(old_cat.take(j), name@).len(),
                self.catalog() == without_server(old_cat.take(j), name@) + old_cat.skip(j),
            decreases old_cat.len() - j,
        {
            proof {
                assert(self.catalog().len() == i + old_cat.len() - j);
                assert(old_cat.take(j + 1).drop_last() =~= old_cat.take(j));
                assert(old_cat.take(j + 1).last() == old_cat[j]);
                assert(self.catalog()[i as int] == old_cat[j]);
            }
            let ghost before = self.tools@;
            let ghost cat_before = self.catalog();
            if self.tools[i].server == *name {
                self.tools.remove(i);
                proof {
                    let w = without_server(old_cat.take(j), name@);
                    assert(old_cat[j].server == name@);
                    assert(without_server(old_cat.take(j + 1), name@) == w);
                    assert(cat_before == w + old_cat.skip(j));
                    assert forall|x: int| 0 <= x < self.catalog().len() implies
                        self.catalog()[x] == (w + old_cat.skip(j + 1))[x] by {
                        if x < i {
                            assert(self.tools@[x] == before[x]);
                            assert(cat_before[x] == w[x]);
                        } else {
                            assert(self.tools@[x] == before[x + 1]);
                            assert(cat_before[x + 1] == old_cat.skip(j)[x + 1 - i]);
                        }
                    }
                    assert(self.catalog() =~= without_server(old_cat.take(j + 1), name@) + old_cat.skip(j + 1));
                }
            } else {
                i = i + 1;
                proof {
                    assert(self.catalog() =~= without_server(old_cat.take(j + 1), name@) + old_cat.skip(j + 1));
                }
            }
            proof {
                j = j + 1;
            }
        }
        proof {
            assert(self.catalog().len() == i + old_cat.len() - j);
            assert(old_cat.take(j) =~= old_cat);
            assert(self.catalog() =~= without_server(old_cat, name@));
        }
        found.is_some()
    }

    /// Position of the first tool of a listing of `server` whose name is not
    /// fresh, if any.
    fn first_clash(&self, server: &String, tools: &Vec<ToolSpec>) -> (r: Option<usize>)
        ensures
            r matches Some(i) ==> i < tools@.len()
                && !fresh_tool(self.catalog(), server@, specs_view(tools@), i as int)
                && forall|k: int| 0 <= k < i ==> fresh_tool(self.catalog(), server@, specs_view(tools@), k),
            r is None ==> listing_fresh(self.catalog(), server@, specs_view(tools@)),
    {
        let ghost cat = self.catalog();
        let ghost specs = specs_view(tools@);
        let mut i: usize = 0;
        while i < tools.len()
            invariant
                cat == self.catalog(),
                specs == specs_view(tools@),
                i <= tools@.len(),
                forall|k: int| 0 <= k < i ==> fresh_tool(cat, server@, specs, k),
            decreases tools@.len() - i,
        {
            let name = &tools[i].name;
            let mut j: usize = 0;
            while j < i
                invariant
                    cat == self.catalog(),
                    specs == specs_view(tools@),
                    j <= i < tools@.len(),
                    forall|k: int| 0 <= k < i ==> fresh_tool(cat, server@, specs, k),
                    name@ == specs[i as int].name,
                    forall|k: int| 0 <= k < j ==> specs[k].name != specs[i as int].name,
                decreases i - j,
            {
                if tools[j].name == *name {
                    assert(specs[j as int].name == specs[i as int].name);
                    return Some(i);
                }
                j = j + 1;
            }
            let mut t: usize = 0;
            while t < self.tools.len()
                invariant
                    cat == self.catalog(),
                    specs == specs_view(tools@),
                    i < tools@.len(),
                    t <= cat.len(),
                    name@ == specs[i as int].name,
                    forall|k: int| 0 <= k < i ==> fresh_tool(cat, server@, specs, k),
                    forall|k: int| 0 <= k < i ==> specs[k].name != specs[i as int].name,
                    forall|u: int| 0 <= u < t && cat[u].server == server@ ==> cat[u].name != specs[i as int].name,
                decreases cat.len() - t,
            {
                assert(cat[t as int] == self.tools@[t as int]@);
                if self.tools[t].server == *server && self.tools[t].name == *name {
                    return Some(i);
                }
                t = t + 1;
            }
            i = i + 1;
        }
        None
    }

    /// Appends the entries of a fresh listing of the live server `server`.
    fn append_tools(&mut self, server: &String, tools: Vec<ToolSpec>)
        requires
            old(self).wf(),
            has_client(old(self).live(), server@),
            listing_fresh(old(self).catalog(), server@, specs_view(tools@)),
        ensures
            final(self).wf(),
            final(self).live() == old(self).live(),
            final(self).catalog() == old(self).catalog() + listed_entries(server@, specs_view(tools@)),
    {
        let ghost old_cat = self.catalog();
        let ghost orig = tools@;
        let ghost specs = specs_view(orig);
        let total = tools.len();
        let mut tools = tools;
        let mut i: usize = 0;
        proof {
            assert(listed_entries(server@, specs.take(0)) =~= Seq::<ToolView>::empty());
            assert(old_cat + Seq::<ToolView>::empty() =~= old_cat);
        }
        while tools.len() > 0
            invariant
                self.wf(),
                has_client(self.live(), server@),
                self.live() == old(self).live(),
                old_cat == old(self).catalog(),
                specs == specs_view(orig),
                listing_fresh(old_cat, server@, specs),
                orig.len() == total,
                i + tools@.len() == total,
                tools@ == orig.skip(i as int),
                self.catalog() == old_cat + listed_entries(server@, specs.take(i as int)),
            decreases tools@.len(),
        {
            let t = tools.remove(0);
            assert(t == orig[i as int]);
            let e = make_entry(server, t);
            let ghost cat = self.catalog();
            self.tools.push(e);
            proof {
                let added = listed_entries(server@, specs.take(i as int));
                assert(listed_entries(server@, specs.take(i + 1)) =~= added.push(entry_of(server@, specs[i as int])));
                assert(self.catalog() =~= cat.push(e@));
                assert(fresh_tool(old_cat, server@, specs, i as int));
                assert forall|a: int, b: int| 0 <= a < b < self.catalog().len() implies
                    !(self.catalog()[a].server == self.catalog()[b].server
                        && self.catalog()[a].name == self.catalog()[b].name) by {
                    if b == cat.len() {
                        if a < old_cat.len() {
                            assert(self.catalog()[a] == old_cat[a]);
                        } else {
                            assert(self.catalog()[a] == added[a - old_cat.len()]);
                            assert(self.catalog()[a].name == specs[a - old_cat.len()].name);
                        }
                    } else {
                        assert(self.catalog()[a] == cat[a] && self.catalog()[b] == cat[b]);
                    }
                }
                assert forall|a: int| 0 <= a < self.catalog().len() implies
                    has_client(self.live(), #[trigger] self.catalog()[a].server) by {
                    if a < cat.len() {
                        assert(self.catalog()[a] == cat[a]);
                    }
                }
                assert forall|a: int| 0 <= a < self.catalog().len() implies
                    (#[trigger] self.catalog()[a]).qualified == qualify(self.catalog()[a].server, self.catalog()[a].name) by {
                    if a < cat.len() {
                        assert(self.catalog()[a] == cat[a]);
                    }
                }
            }
            i = i + 1;
            proof {
                assert(orig.skip(i as int) =~= orig.skip(i - 1).subrange(1, orig.skip(i - 1).len() as int));
            }
        }
        proof {
            assert(specs.take(i as int) =~= specs);
        }
    }

    /// Takes in what listing the tools of `server` gave. A fresh listing of a
    /// live server adds its tools to the catalog, in listing order, each under
    /// its server-qualified address. A failed listing, or one that repeats a
    /// tool name, takes the server out as a failed connection would be; a
    /// listing for a server that is not live changes nothing.
    pub fn add_listing(&mut self, server: String, listing: Result<Vec<ToolSpec>, String>) -> (r: Option<Failure>)
        requires
            old(self).wf(),
        ensures
            final(self).wf(),
            !has_client(old(self).live(), server@) ==> {
                &&& r == Some(Failure { name: server, error: ServerError::NotConnected })
                &&& final(self).live() == old(self).live()
                &&& final(self).catalog() == old(self).catalog()
            },
            has_client(old(self).live(), server@) ==> match listing {
                Err(e) => {
                    &&& r == Some(Failure { name: server, error: ServerError::Listing(e) })
                    &&& without_client(old(self).live(), final(self).live(), server@)
                    &&& final(self).catalog() == without_server(old(self).catalog(), server@)
                },
                Ok(tools) => if listing_fresh(old(self).catalog(), server@, specs_view(tools@)) {
                    &&& r is None
                    &&& final(self).live() == old(self).live()
                    &&& final(self).catalog() == old(self).catalog() + listed_entries(server@, specs_view(tools@))
                } else {
                    &&& match r {
                        Some(Failure { name, error: ServerError::DuplicateTool(n) }) => {
                            &&& name == server
                            &&& exists|i: int| 0 <= i < tools@.len() && n@ == tools@[i].name@
                                && !fresh_tool(old(self).catalog(), server@, specs_view(tools@), i)
                                && forall|k: int| 0 <= k < i ==> fresh_tool(old(self).catalog(), server@, specs_view(tools@), k)
                        },
                        _ => false,
                    }
                    &&& without_client(old(self).live(), final(self).live(), server@)
                    &&& final(self).catalog() == without_server(old(self).catalog(), server@)
                },
            },
    {
        let known = self.find_client(&server);
        if known.is_none() {
            return Some(Failure { name: server, error: ServerError::NotConnected });
        }
        match listing {
            Err(e) => {
                self.tear_down(&server);
                Some(Failure { name: server, error: ServerError::Listing(e) })
            },
            Ok(tools) => {
                match self.first_clash(&server, &tools) {
                    Some(i) => {
                        let n = tools[i].name.clone();
                        self.tear_down(&server);
                        Some(Failure { name: server, error: ServerError::DuplicateTool(n) })
                    },
                    None => {
                        self.append_tools(&server, tools);
                        None
                    },
                }
            },
        }
    }

    /// Position of the catalog entry with address `q`.
    pub(crate) fn find_tool(&self, q: &String) -> (r: Option<usize>)
        ensures
            r matches Some(p) ==> p < self.catalog().len() && self.catalog()[p as int].qualified == q@,
            r is None ==> !addressed(self.catalog(), q@),
    {
        let mut p: usize = 0;
        while p < self.tools.len()
            invariant
                p <= self.tools@.len(),
                forall|x: int| 0 <= x < p ==> self.catalog()[x].qualified != q@,
            decreases self.tools@.len() - p,
        {
            assert(self.catalog()[p as int] == self.tools@[p as int]@);
            if self.tools[p].qualified == *q {
                return Some(p);
            }
            p = p + 1;
        }
        None
    }

    /// Resolves an invocation of the tool at address `qualified` to the live
    /// connection that owns it and the tool's name on that server. An address
    /// that no catalog entry has, as after its server was torn down, is a
    /// routing error.
    pub fn route(&self, qualified: &String) -> (r: Result<(&C, String), RoutingError>)
        requires
            self.wf(),
        ensures
            r is Ok <==> addressed(self.catalog(), qualified@),
            r matches Ok(found) ==> exists|p: int, k: int|
                0 <= p < self.catalog().len() && self.catalog()[p].qualified == qualified@
                && found.1@ == self.catalog()[p].name
                && 0 <= k < self.live().len() && self.live()[k].0@ == self.catalog()[p].server
                && *found.0 == self.live()[k].1,
            r matches Err(RoutingError::UnknownTool(n)) ==> n == *qualified,
    {
        match self.find_tool(qualified) {
            None => Err(RoutingError::UnknownTool(qualified.clone())),
            Some(p) => {
                let entry = &self.tools[p];
                assert(self.catalog()[p as int] == entry@);
                assert(has_client(self.live(), self.catalog()[p as int].server));
                match self.find_client(&entry.server) {
                    Some(k) => Ok((&self.clients[k].1, entry.name.clone())),
                    None => Err(RoutingError::UnknownTool(qualified.clone())),
                }
            },
        }
    }

    /// Builds the registry from the outcomes of all connection attempts, in
    /// the order they are given. A failed attempt, or a connection under a
    /// name that is malformed or already live, is reported and left out;
    /// nothing stops the others.
    pub fn from_outcomes(outcomes: Vec<Outcome<C>>) -> (r: (McpManager<C>, Vec<Failure>))
        ensures
            r.0.wf(),
            r.0.live() == startup_live(outcomes@),
            r.0.catalog().len() == 0,
            r.1@ == startup_failures(outcomes@),
    {
        let ghost orig = outcomes@;
        let mut outcomes = outcomes;
        let mut manager = McpManager { clients: Vec::new(), tools: Vec::new() };
        let mut failures: Vec<Failure> = Vec::new();
        let mut i: usize = 0;
        let total = outcomes.len();
        proof {
            assert(orig.take(0) =~= Seq::<Outcome<C>>::empty());
            lemma_live_from_outcomes(orig.take(0));
        }
        while outcomes.len() > 0
            invariant
                i <= orig.len(),
                outcomes@ == orig.skip(i as int),
                i + outcomes@.len() == orig.len(),
                orig.len() == total,
                manager.clients@ == startup_live(orig.take(i as int)),
                manager.tools@.len() == 0,
                failures@ == startup_failures(orig.take(i as int)),
            decreases outcomes@.len(),
        {
            let (name, result) = outcomes.remove(0);
            proof {
                assert(orig.take(i + 1).drop_last() =~= orig.take(i as int));
                assert(orig.take(i + 1).last() == orig[i as int]);
                lemma_live_from_outcomes(orig.take(i as int));
            }
            match result {
                Ok(c) => {
                    let known = manager.find_client(&name);
                    if known.is_none() && name.as_str().unicode_len() > 0 && !crate::config::has_separator(&name) {
                        manager.clients.push((name, c));
                    } else {
                        failures.push(Failure { name, error: ServerError::Rejected });
                    }
                },
                Err(e) => {
                    failures.push(Failure { name, error: ServerError::Connection(e) });
                },
            }
            i = i + 1;
            proof {
                assert(orig.skip(i as int) =~= orig.skip(i - 1).subrange(1, orig.skip(i - 1).len() as int));
            }
        }
        proof {
            assert(orig.take(i as int) =~= orig);
            lemma_live_from_outcomes(orig);
            assert(manager.tools@.map_values(|t: ToolEntry| t@) =~= Seq::<ToolView>::empty());
        }
        (manager, failures)
    }
}

} // verus!
