//! The central server's routes: for each room, the chain of relays that its
//! traffic takes, kept under a random path id.
use crate::central::RoomInfo;
use crate::central_server::{ids_except, CentralRegistry};
use crate::keyed::{keyed_map, keys_distinct, position_of_key, remove_key, upsert, Keyed};
use crate::text::texts_view;
use rand::Rng;
use vstd::prelude::*;

verus! {

/// One relay on a route.
#[derive(Debug)]
pub struct PathHop {
    pub node_id: String,
    pub address: String,
}

/// A route through the relays under its id, with the sum of the latencies
/// of its links.
#[derive(Debug)]
pub struct RoutePath {
    pub path_id: String,
    pub hops: Vec<PathHop>,
    pub total_latency_ms: u64,
}

/// The route that a room uses.
#[derive(Debug)]
pub struct RoomRoute {
    pub room: String,
    pub path_id: String,
}

impl Keyed for RoutePath {
    open spec fn key(&self) -> Seq<char> {
        self.path_id@
    }

    fn key_text(&self) -> (k: &String) {
        &self.path_id
    }
}

impl Keyed for RoomRoute {
    open spec fn key(&self) -> Seq<char> {
        self.room@
    }

    fn key_text(&self) -> (k: &String) {
        &self.room
    }
}

/// Calls `uuid::Uuid::new_v4` and formats the id with `to_string`. Trusted:
/// the text is the 36 characters of the hyphenated form, as the crate's
/// `Display` writes it; which id comes out is left open.
#[verifier::external_body]
fn new_path_id() -> (id: String)
    ensures
        id@.len() == 36,
{
    uuid::Uuid::new_v4().to_string()
}

/// Calls `rand::thread_rng().gen_range(0..n)`. Trusted: the result lies in
/// `0..n`, as rand documents (it panics on an empty range, which `requires`
/// leaves out); which value comes out is left open.
#[verifier::external_body]
fn random_below(n: usize) -> (i: usize)
    requires
        n > 0,
    ensures
        i < n,
{
    rand::thread_rng().gen_range(0..n)
}

/// The route goes through relay `relay`.
pub open spec fn passes_through(p: RoutePath, relay: Seq<char>) -> bool {
    exists|i: int| 0 <= i < p.hops@.len() && #[trigger] p.hops@[i].node_id@ == relay
}

/// A room whose route has the dead relay at any hop, first, last or between,
/// is among the rooms to re-route, with the relay that hosts it.
pub proof fn lemma_rooms_through_any_hop(
    routes: Seq<RoomRoute>,
    paths: Map<Seq<char>, RoutePath>,
    rooms: Map<Seq<char>, RoomInfo>,
    dead: Seq<char>,
    i: int,
    m: int,
)
    requires
        0 <= i < routes.len(),
        paths.contains_key(routes[i].path_id@),
        0 <= m < paths[routes[i].path_id@].hops@.len(),
        paths[routes[i].path_id@].hops@[m].node_id@ == dead,
        rooms.contains_key(routes[i].room@),
    ensures
        rooms_through(routes, paths, rooms, dead).contains(
            (routes[i].room@, rooms[routes[i].room@].host_relay_id@),
        ),
    decreases routes.len(),
{
    let rest = rooms_through(routes.drop_last(), paths, rooms, dead);
    let e = (routes[i].room@, rooms[routes[i].room@].host_relay_id@);
    if i == routes.len() - 1 {
        assert(passes_through(paths[routes[i].path_id@], dead));
        assert(rooms_through(routes, paths, rooms, dead) == rest.push(e));
        assert(rest.push(e)[rest.len() as int] == e);
    } else {
        assert(routes.drop_last()[i] == routes[i]);
        lemma_rooms_through_any_hop(routes.drop_last(), paths, rooms, dead, i, m);
        let j = choose|j: int| 0 <= j < rest.len() && rest[j] == e;
        let r = routes.last();
        if paths.contains_key(r.path_id@) && passes_through(paths[r.path_id@], dead) && rooms.contains_key(
            r.room@,
        ) {
            assert(rest.push((r.room@, rooms[r.room@].host_relay_id@))[j] == e);
        }
    }
}

/// Every room listed for re-routing has a route with the dead relay at some hop.
pub proof fn lemma_rooms_through_only_dead(
    routes: Seq<RoomRoute>,
    paths: Map<Seq<char>, RoutePath>,
    rooms: Map<Seq<char>, RoomInfo>,
    dead: Seq<char>,
    j: int,
)
    requires
        0 <= j < rooms_through(routes, paths, rooms, dead).len(),
    ensures
        exists|i: int, m: int|
            0 <= i < routes.len() && paths.contains_key(routes[i].path_id@) && 0 <= m
                < paths[routes[i].path_id@].hops@.len() && #[trigger] paths[routes[i].path_id@].hops@[m].node_id@
                == dead && rooms_through(routes, paths, rooms, dead)[j] == (
                #[trigger] routes[i].room@,
                rooms[routes[i].room@].host_relay_id@,
            ),
    decreases routes.len(),
{
    let rest = rooms_through(routes.drop_last(), paths, rooms, dead);
    let r = routes.last();
    let taken = paths.contains_key(r.path_id@) && passes_through(paths[r.path_id@], dead)
        && rooms.contains_key(r.room@);
    if j < rest.len() {
        lemma_rooms_through_only_dead(routes.drop_last(), paths, rooms, dead, j);
        let (i, m) = choose|i: int, m: int|
            0 <= i < routes.drop_last().len() && paths.contains_key(routes.drop_last()[i].path_id@) && 0
                <= m < paths[routes.drop_last()[i].path_id@].hops@.len()
                && #[trigger] paths[routes.drop_last()[i].path_id@].hops@[m].node_id@ == dead
                && rest[j] == (
                #[trigger] routes.drop_last()[i].room@,
                rooms[routes.drop_last()[i].room@].host_relay_id@,
            );
        assert(routes[i] == routes.drop_last()[i]);
        if taken {
            assert(rooms_through(routes, paths, rooms, dead)[j] == rest[j]);
        }
        assert(paths[routes[i].path_id@].hops@[m].node_id@ == dead);
    } else {
        assert(taken);
        let m = choose|m: int| 0 <= m < paths[r.path_id@].hops@.len() && #[trigger] paths[r.path_id@].hops@[m].node_id@
            == dead;
        let i = routes.len() - 1;
        assert(routes[i] == r);
        assert(paths[routes[i].path_id@].hops@[m].node_id@ == dead);
    }
}

/// Two routes with the same id, hops and latency.
pub open spec fn same_path(a: RoutePath, b: RoutePath) -> bool {
    a.path_id == b.path_id && a.hops@ == b.hops@ && a.total_latency_ms == b.total_latency_ms
}

/// The rooms whose route goes through relay `dead`, with the relay that
/// hosts each, in the order of `routes`; a room that no longer exists, or
/// whose route is unknown, is passed over.
pub open spec fn rooms_through(
    routes: Seq<RoomRoute>,
    paths: Map<Seq<char>, RoutePath>,
    rooms: Map<Seq<char>, RoomInfo>,
    dead: Seq<char>,
) -> Seq<(Seq<char>, Seq<char>)>
    decreases routes.len(),
{
    if routes.len() == 0 {
        Seq::empty()
    } else {
        let rest = rooms_through(routes.drop_last(), paths, rooms, dead);
        let r = routes.last();
        if paths.contains_key(r.path_id@) && passes_through(paths[r.path_id@], dead) && rooms.contains_key(
            r.room@,
        ) {
            rest.push((r.room@, rooms[r.room@].host_relay_id@))
        } else {
            rest
        }
    }
}

/// `plan` pairs each room of `affected` (with its host's relay) with one of
/// `others`, in order; it is empty when `others` is.
pub open spec fn reroute_planned(
    others: Seq<Seq<char>>,
    affected: Seq<(Seq<char>, Seq<char>)>,
    plan: Seq<(String, String, String)>,
) -> bool {
    &&& others.len() == 0 ==> plan.len() == 0
    &&& others.len() > 0 ==> plan.len() == affected.len()
    &&& forall|i: int|
        0 <= i < plan.len() ==> #[trigger] plan[i].0@ == affected[i].0 && plan[i].1@ == affected[i].1
            && others.contains(plan[i].2@)
}

/// The texts of a sequence of pairs of strings.
pub open spec fn pairs_view(v: Seq<(String, String)>) -> Seq<(Seq<char>, Seq<char>)> {
    Seq::new(v.len(), |i: int| (v[i].0@, v[i].1@))
}

/// A room's route is found once assigned: after storing `path` for `room`,
/// the room's route id leads to `path`, and the other rooms keep theirs.
pub proof fn lemma_assigned_route_found(
    routes: Map<Seq<char>, Seq<char>>,
    paths: Map<Seq<char>, RoutePath>,
    room: Seq<char>,
    path: RoutePath,
    other: Seq<char>,
)
    requires
        other != room,
    ensures
        ({
            let routes2 = routes.insert(room, path.path_id@);
            let paths2 = paths.insert(path.path_id@, path);
            &&& routes2.contains_key(room)
            &&& paths2.contains_key(routes2[room])
            &&& paths2[routes2[room]] == path
            &&& routes2.contains_key(other) == routes.contains_key(other)
            &&& routes.contains_key(other) ==> routes2[other] == routes[other]
        }),
{
}

/// The routes of the central server.
#[derive(Debug)]
pub struct PathBook {
    pub paths: Vec<RoutePath>,
    pub routes: Vec<RoomRoute>,
}

fn copy_path(p: &RoutePath) -> (c: RoutePath)
    ensures
        same_path(c, *p),
{
    let mut hops: Vec<PathHop> = Vec::new();
    let mut i: usize = 0;
    while i < p.hops.len()
        invariant
            i <= p.hops@.len(),
            hops@ == p.hops@.take(i as int),
        decreases p.hops@.len() - i,
    {
        hops.push(PathHop { node_id: p.hops[i].node_id.clone(), address: p.hops[i].address.clone() });
        assert(hops@ =~= p.hops@.take(i + 1));
        i = i + 1;
    }
    assert(p.hops@.take(p.hops@.len() as int) =~= p.hops@);
    RoutePath { path_id: p.path_id.clone(), hops, total_latency_ms: p.total_latency_ms }
}

fn goes_through(p: &RoutePath, relay: &str) -> (res: bool)
    ensures
        res == passes_through(*p, relay@),
        res == exists|i: int| 0 <= i < p.hops@.len() && #[trigger] p.hops@[i].node_id@ == relay@,
{
    let target = relay.to_owned();
    let mut i: usize = 0;
    while i < p.hops.len()
        invariant
            i <= p.hops@.len(),
            target@ == relay@,
            forall|j: int| 0 <= j < i ==> p.hops@[j].node_id@ != relay@,
        decreases p.hops@.len() - i,
    {
        if p.hops[i].node_id == target {
            return true;
        }
        i = i + 1;
    }
    false
}

impl PathBook {
    /// No routes.
    pub fn new() -> (b: PathBook)
        ensures
            b.wf(),
            b.paths_view() == Map::<Seq<char>, RoutePath>::empty(),
            b.routes_view() == Map::<Seq<char>, Seq<char>>::empty(),
    {
        let b = PathBook { paths: Vec::new(), routes: Vec::new() };
        assert(b.paths_view() =~= Map::<Seq<char>, RoutePath>::empty());
        assert(b.routes_view() =~= Map::<Seq<char>, Seq<char>>::empty());
        b
    }

    /// Each path id and each room occurs once.
    pub open spec fn wf(&self) -> bool {
        keys_distinct(self.paths@) && keys_distinct(self.routes@)
    }

    /// The routes by path id.
    pub open spec fn paths_view(&self) -> Map<Seq<char>, RoutePath> {
        keyed_map(self.paths@)
    }

    /// The path id of each room's route.
    pub open spec fn routes_view(&self) -> Map<Seq<char>, Seq<char>> {
        keyed_map(self.routes@).map_values(|r: RoomRoute| r.path_id@)
    }

    /// Stores the route of `hops` for `room` under a new random id, which is
    /// returned; the room's earlier route stays among the paths.
    pub fn assign_route(&mut self, room: &str, hops: Vec<PathHop>, total_latency_ms: u64) -> (id: String)
        requires
            old(self).wf(),
        ensures
            final(self).wf(),
            id@.len() == 36,
            final(self).paths_view() == old(self).paths_view().insert(
                id@,
                RoutePath { path_id: id, hops, total_latency_ms },
            ),
            final(self).routes_view() == old(self).routes_view().insert(room@, id@),
    {
        let id = new_path_id();
        self.store_route(room, id.clone(), hops, total_latency_ms);
        id
    }

    /// Stores the route of `hops` for `room` under the id `path_id`.
    pub fn store_route(&mut self, room: &str, path_id: String, hops: Vec<PathHop>, total_latency_ms: u64)
        requires
            old(self).wf(),
        ensures
            final(self).wf(),
            final(self).paths_view() == old(self).paths_view().insert(
                path_id@,
                RoutePath { path_id, hops, total_latency_ms },
            ),
            final(self).routes_view() == old(self).routes_view().insert(room@, path_id@),
    {
        let route = RoomRoute { room: room.to_owned(), path_id: path_id.clone() };
        let path = RoutePath { path_id, hops, total_latency_ms };
        upsert(&mut self.paths, path);
        upsert(&mut self.routes, route);
        assert(self.routes_view() =~= old(self).routes_view().insert(room@, route.path_id@));
    }

    /// A copy of the route of `room`, when the room has one and it is known.
    pub fn route_of(&self, room: &String) -> (res: Option<RoutePath>)
        requires
            self.wf(),
        ensures
            match res {
                Some(p) => self.routes_view().contains_key(room@) && self.paths_view().contains_key(
                    self.routes_view()[room@],
                ) && same_path(p, self.paths_view()[self.routes_view()[room@]]),
                None => !self.routes_view().contains_key(room@) || !self.paths_view().contains_key(
                    self.routes_view()[room@],
                ),
            },
    {
        match position_of_key(&self.routes, room) {
            Some(i) => match position_of_key(&self.paths, &self.routes[i].path_id) {
                Some(j) => Some(copy_path(&self.paths[j])),
                None => None,
            },
            None => None,
        }
    }

    /// Forgets the route of `room`.
    pub fn forget_room(&mut self, room: &String)
        requires
            old(self).wf(),
        ensures
            final(self).wf(),
            final(self).paths == old(self).paths,
            final(self).routes_view() == old(self).routes_view().remove(room@),
    {
        let _ = remove_key(&mut self.routes, room);
        assert(self.routes_view() =~= old(self).routes_view().remove(room@));
    }

    /// The rooms whose route goes through relay `dead_id`, with the relay
    /// that hosts each.
    pub fn rooms_through(&self, registry: &CentralRegistry, dead_id: &str) -> (affected: Vec<(String, String)>)
        requires
            self.wf(),
            registry.wf(),
        ensures
            pairs_view(affected@) == rooms_through(
                self.routes@,
                self.paths_view(),
                registry.rooms_view(),
                dead_id@,
            ),
    {
        let mut affected: Vec<(String, String)> = Vec::new();
        let mut i: usize = 0;
        while i < self.routes.len()
            invariant
                self.wf(),
                registry.wf(),
                i <= self.routes@.len(),
                pairs_view(affected@) == rooms_through(
                    self.routes@.take(i as int),
                    self.paths_view(),
                    registry.rooms_view(),
                    dead_id@,
                ),
            decreases self.routes@.len() - i,
        {
            assert(self.routes@.take(i + 1).drop_last() =~= self.routes@.take(i as int));
            let r = &self.routes[i];
            if let Some(j) = position_of_key(&self.paths, &r.path_id) {
                if goes_through(&self.paths[j], dead_id) {
                    if let Some(room) = registry.get_room(&r.room) {
                        affected.push((r.room.clone(), room.host_relay_id));
                        assert(pairs_view(affected@) =~= rooms_through(
                            self.routes@.take(i as int),
                            self.paths_view(),
                            registry.rooms_view(),
                            dead_id@,
                        ).push((r.room@, registry.rooms_view()[r.room@].host_relay_id@)));
                    }
                }
            }
            i = i + 1;
        }
        assert(self.routes@.take(self.routes@.len() as int) =~= self.routes@);
        affected
    }

    /// What to do when relay `dead_id` goes: each room whose route went
    /// through it, with its host's relay and a relay picked at random among
    /// the other registered relays; nothing when there is no other relay.
    pub fn plan_reroute(&self, registry: &CentralRegistry, dead_id: &str) -> (plan: Vec<(String, String, String)>)
        requires
            self.wf(),
            registry.wf(),
        ensures
            reroute_planned(
                ids_except(registry.relays@, dead_id@),
                rooms_through(self.routes@, self.paths_view(), registry.rooms_view(), dead_id@),
                plan@,
            ),
    {
        let others = registry.relay_ids_except(dead_id);
        if others.len() == 0 {
            assert(texts_view(others@).len() == 0);
            return Vec::new();
        }
        let affected = self.rooms_through(registry, dead_id);
        let mut picks: Vec<usize> = Vec::new();
        let mut i: usize = 0;
        while i < affected.len()
            invariant
                i <= affected@.len(),
                others@.len() > 0,
                picks@.len() == i,
                forall|k: int| 0 <= k < i ==> #[trigger] picks@[k] < others@.len(),
            decreases affected@.len() - i,
        {
            picks.push(random_below(others.len()));
            i = i + 1;
        }
        let plan = pair_with_picks(&affected, &others, &picks);
        assert(pairs_view(affected@).len() == affected@.len());
        assert(texts_view(others@).len() == others@.len());
        proof {
            let affected_s = rooms_through(self.routes@, self.paths_view(), registry.rooms_view(), dead_id@);
            assert forall|k: int| 0 <= k < plan@.len() implies #[trigger] plan@[k].0@ == affected_s[k].0
                && plan@[k].1@ == affected_s[k].1 && ids_except(registry.relays@, dead_id@).contains(
                plan@[k].2@,
            ) by {
                assert((plan@[k].0@, plan@[k].1@, plan@[k].2@) == (
                    affected@[k].0@,
                    affected@[k].1@,
                    others@[picks@[k] as int]@,
                ));
                assert(pairs_view(affected@)[k] == (affected@[k].0@, affected@[k].1@));
                assert(picks@[k] < others@.len());
                assert(texts_view(others@)[picks@[k] as int] == others@[picks@[k] as int]@);
                assert(ids_except(registry.relays@, dead_id@)[picks@[k] as int] == plan@[k].2@);
            }
            assert(ids_except(registry.relays@, dead_id@).len() > 0);
            assert(plan@.len() == rooms_through(self.routes@, self.paths_view(), registry.rooms_view(), dead_id@).len());
        }
        assert(reroute_planned(
            ids_except(registry.relays@, dead_id@),
            rooms_through(self.routes@, self.paths_view(), registry.rooms_view(), dead_id@),
            plan@,
        ));
        plan
    }
}

/// Pairs each affected room (with its host's relay) with the relay that
/// `picks` chooses among `others`.
pub fn pair_with_picks(
    affected: &Vec<(String, String)>,
    others: &Vec<String>,
    picks: &Vec<usize>,
) -> (plan: Vec<(String, String, String)>)
    requires
        picks@.len() == affected@.len(),
        forall|k: int| 0 <= k < picks@.len() ==> #[trigger] picks@[k] < others@.len(),
    ensures
        plan@.len() == affected@.len(),
        forall|k: int|
            0 <= k < plan@.len() ==> (#[trigger] plan@[k].0@, plan@[k].1@, plan@[k].2@) == (
                affected@[k].0@,
                affected@[k].1@,
                others@[picks@[k] as int]@,
            ),
{
    let mut plan: Vec<(String, String, String)> = Vec::new();
    let mut i: usize = 0;
    while i < affected.len()
        invariant
            i <= affected@.len(),
            picks@.len() == affected@.len(),
            forall|k: int| 0 <= k < picks@.len() ==> #[trigger] picks@[k] < others@.len(),
            plan@.len() == i,
            forall|k: int|
                0 <= k < i ==> (#[trigger] plan@[k].0@, plan@[k].1@, plan@[k].2@) == (
                    affected@[k].0@,
                    affected@[k].1@,
                    others@[picks@[k] as int]@,
                ),
        decreases affected@.len() - i,
    {
        let ghost before = plan@;
        let pick = picks[i];
        plan.push((affected[i].0.clone(), affected[i].1.clone(), others[pick].clone()));
        proof {
            assert forall|k: int| 0 <= k < i + 1 implies (#[trigger] plan@[k].0@, plan@[k].1@, plan@[k].2@) == (
                affected@[k].0@,
                affected@[k].1@,
                others@[picks@[k] as int]@,
            ) by {
                if k < i {
                    assert(plan@[k] == before[k]);
                }
            }
        }
        i = i + 1;
    }
    plan
}

} // verus!
