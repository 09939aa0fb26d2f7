//! The central server's records: registered relays, rooms, and the latency
//! reports between relays.
use crate::central::RoomInfo;
use crate::keyed::{
    has_key, keyed_map, keys_distinct, lemma_keyed_at, lemma_keyed_push, position_of_key,
    remove_key, upsert, Keyed,
};
use crate::text::texts_view;
use vstd::prelude::*;
use vstd::string::StrSliceExecFns;

verus! {

/// A relay registered at the central server, with the second it was last heard from.
#[derive(Debug)]
pub struct RelayRecord {
    pub id: String,
    pub name: String,
    pub address: String,
    pub last_seen: u64,
}

/// Which relay registered over the connection from `addr`.
#[derive(Debug)]
pub struct PeerBinding {
    pub addr: String,
    pub relay_id: String,
}

/// The latency reports from one relay to another under the key `from->to`:
/// the last ten samples and their average.
#[derive(Debug)]
pub struct LatencyEntry {
    pub key: String,
    pub from_id: String,
    pub to_id: String,
    pub latency_ms: u64,
    pub samples: Vec<u64>,
}

impl Keyed for RoomInfo {
    open spec fn key(&self) -> Seq<char> {
        self.name@
    }

    fn key_text(&self) -> (k: &String) {
        &self.name
    }
}

impl Keyed for RelayRecord {
    open spec fn key(&self) -> Seq<char> {
        self.id@
    }

    fn key_text(&self) -> (k: &String) {
        &self.id
    }
}

impl Keyed for PeerBinding {
    open spec fn key(&self) -> Seq<char> {
        self.addr@
    }

    fn key_text(&self) -> (k: &String) {
        &self.addr
    }
}

impl Keyed for LatencyEntry {
    open spec fn key(&self) -> Seq<char> {
        self.key@
    }

    fn key_text(&self) -> (k: &String) {
        &self.key
    }
}

impl RelayRecord {
    /// A copy of the record.
    pub fn duplicate(&self) -> (r: RelayRecord)
        ensures
            r == *self,
    {
        RelayRecord {
            id: self.id.clone(),
            name: self.name.clone(),
            address: self.address.clone(),
            last_seen: self.last_seen,
        }
    }
}

/// The central server's records.
#[derive(Debug)]
pub struct CentralRegistry {
    pub relays: Vec<RelayRecord>,
    pub rooms: Vec<RoomInfo>,
    pub latencies: Vec<LatencyEntry>,
    pub addr_to_id: Vec<PeerBinding>,
}

/// Seconds after which a room expires.
pub const ROOM_LIFETIME_SECS: u64 = 86400;

/// Seconds of silence after which a relay is dropped.
pub const HEARTBEAT_TIMEOUT_SECS: u64 = 120;

/// The room is younger than a day at second `now`.
pub open spec fn room_alive(r: RoomInfo, now: u64) -> bool {
    now - r.created_at < ROOM_LIFETIME_SECS
}

/// The relay was silent for longer than the heartbeat timeout at second `now`.
pub open spec fn relay_dead(r: RelayRecord, now: u64) -> bool {
    now - r.last_seen > HEARTBEAT_TIMEOUT_SECS
}

/// The ids of the relays of `relays` that are silent at `now`, in order.
pub open spec fn dead_ids(relays: Seq<RelayRecord>, now: u64) -> Seq<Seq<char>>
    decreases relays.len(),
{
    if relays.len() == 0 {
        Seq::empty()
    } else {
        let rest = dead_ids(relays.drop_last(), now);
        if relay_dead(relays.last(), now) {
            rest.push(relays.last().id@)
        } else {
            rest
        }
    }
}

/// `r` is the relay `id`, silent at `now`.
pub open spec fn silent_relay_is(r: RelayRecord, id: Seq<char>, now: u64) -> bool {
    r.id@ == id && relay_dead(r, now)
}

/// Some relay of `relays` is the relay `id`, silent at `now`.
pub open spec fn has_silent_relay(relays: Seq<RelayRecord>, id: Seq<char>, now: u64) -> bool {
    exists|j: int| 0 <= j < relays.len() && #[trigger] silent_relay_is(relays[j], id, now)
}

proof fn lemma_dead_ids_members(relays: Seq<RelayRecord>, now: u64)
    ensures
        forall|a: int|
            0 <= a < dead_ids(relays, now).len() ==> has_silent_relay(
                relays,
                #[trigger] dead_ids(relays, now)[a],
                now,
            ),
        forall|j: int|
            0 <= j < relays.len() && relay_dead(relays[j], now) ==> dead_ids(relays, now).contains(
                #[trigger] relays[j].id@,
            ),
    decreases relays.len(),
{
    if relays.len() > 0 {
        let init = relays.drop_last();
        let n = relays.len() - 1;
        lemma_dead_ids_members(init, now);
        assert forall|a: int| 0 <= a < dead_ids(relays, now).len() implies has_silent_relay(
            relays,
            #[trigger] dead_ids(relays, now)[a],
            now,
        ) by {
            if a < dead_ids(init, now).len() {
                assert(dead_ids(relays, now)[a] == dead_ids(init, now)[a]);
                assert(has_silent_relay(init, dead_ids(init, now)[a], now));
                let j = choose|j: int|
                    0 <= j < init.len() && #[trigger] silent_relay_is(init[j], dead_ids(init, now)[a], now);
                assert(relays[j] == init[j]);
                assert(silent_relay_is(relays[j], dead_ids(relays, now)[a], now));
            } else {
                assert(silent_relay_is(relays[n], dead_ids(relays, now)[a], now));
            }
        }
        assert forall|j: int| 0 <= j < relays.len() && relay_dead(relays[j], now) implies dead_ids(
            relays,
            now,
        ).contains(#[trigger] relays[j].id@) by {
            if j < n {
                assert(relays[j] == init[j]);
                assert(dead_ids(init, now).contains(init[j].id@));
                let a = choose|a: int|
                    0 <= a < dead_ids(init, now).len() && dead_ids(init, now)[a] == init[j].id@;
                assert(dead_ids(relays, now)[a] == dead_ids(init, now)[a]);
            } else {
                assert(dead_ids(relays, now)[dead_ids(relays, now).len() - 1] == relays[j].id@);
            }
        }
    }
}

/// The key of the latency reports from `from` to `to`: `from->to`.
pub open spec fn latency_key(from: Seq<char>, to: Seq<char>) -> Seq<char> {
    from + seq!['-', '>'] + to
}

pub open spec fn sum_samples(s: Seq<u64>) -> int
    decreases s.len(),
{
    if s.len() == 0 {
        0
    } else {
        sum_samples(s.drop_last()) + s.last()
    }
}

/// The samples after adding `ms`: the ten most recent.
pub open spec fn next_samples(s: Seq<u64>, ms: u64) -> Seq<u64> {
    if s.push(ms).len() > 10 {
        s.push(ms).drop_first()
    } else {
        s.push(ms)
    }
}

/// The samples recorded under `key` so far.
pub open spec fn samples_under(m: Map<Seq<char>, LatencyEntry>, key: Seq<char>) -> Seq<u64> {
    if m.contains_key(key) {
        m[key].samples@
    } else {
        Seq::empty()
    }
}

proof fn lemma_sum_prefix(s: Seq<u64>, i: int)
    requires
        0 <= i <= s.len(),
    ensures
        0 <= sum_samples(s.take(i)) <= sum_samples(s),
    decreases s.len(),
{
    if i == s.len() {
        assert(s.take(i) =~= s);
        lemma_sum_nonneg(s);
    } else {
        lemma_sum_prefix(s.drop_last(), i);
        assert(s.drop_last().take(i) =~= s.take(i));
    }
}

proof fn lemma_sum_nonneg(s: Seq<u64>)
    ensures
        sum_samples(s) >= 0,
    decreases s.len(),
{
    if s.len() > 0 {
        lemma_sum_nonneg(s.drop_last());
    }
}

fn sum_of(s: &Vec<u64>) -> (total: u64)
    requires
        sum_samples(s@) <= u64::MAX,
    ensures
        total == sum_samples(s@),
{
    let mut total: u64 = 0;
    let mut i: usize = 0;
    while i < s.len()
        invariant
            i <= s@.len(),
            sum_samples(s@) <= u64::MAX,
            total == sum_samples(s@.take(i as int)),
        decreases s@.len() - i,
    {
        proof {
            lemma_sum_prefix(s@, i + 1);
            assert(s@.take(i + 1).drop_last() =~= s@.take(i as int));
        }
        total = total + s[i];
        i = i + 1;
    }
    assert(s@.take(s@.len() as int) =~= s@);
    total
}

/// The room recorded under `name`, if any.
pub open spec fn room_lookup(rooms: Map<Seq<char>, RoomInfo>, name: Seq<char>) -> Option<RoomInfo> {
    if rooms.contains_key(name) {
        Some(rooms[name])
    } else {
        None
    }
}

/// A room's life at the central server: created under a free name, it is
/// found under that name as it was created; a second creation under the
/// name is refused (the name is taken); once deleted, it is not found, and
/// the other rooms are found as before throughout.
pub proof fn lemma_room_lifecycle(rooms: Map<Seq<char>, RoomInfo>, room: RoomInfo, other: Seq<char>)
    requires
        !rooms.contains_key(room.name@),
        other != room.name@,
    ensures
        room_lookup(rooms.insert(room.name@, room), room.name@) == Some(room),
        rooms.insert(room.name@, room).contains_key(room.name@),
        room_lookup(rooms.insert(room.name@, room).remove(room.name@), room.name@) is None,
        room_lookup(rooms.insert(room.name@, room), other) == room_lookup(rooms, other),
        room_lookup(rooms.insert(room.name@, room).remove(room.name@), other) == room_lookup(rooms, other),
{
}

/// The ids of `relays` other than `id`, in order.
pub open spec fn ids_except(relays: Seq<RelayRecord>, id: Seq<char>) -> Seq<Seq<char>>
    decreases relays.len(),
{
    if relays.len() == 0 {
        Seq::empty()
    } else {
        let rest = ids_except(relays.drop_last(), id);
        if relays.last().id@ != id {
            rest.push(relays.last().id@)
        } else {
            rest
        }
    }
}

/// The relay that a member of a room hosted on `host` is routed through:
/// the first other relay, or the host's own when there is none.
pub open spec fn member_relay(relays: Seq<RelayRecord>, host: Seq<char>) -> Seq<char> {
    let others = ids_except(relays, host);
    if others.len() > 0 {
        others[0]
    } else {
        host
    }
}

/// `->` stands at position `i` of `s`.
pub open spec fn arrow_at(s: Seq<char>, i: int) -> bool {
    0 <= i && i + 1 < s.len() && s[i] == '-' && s[i + 1] == '>'
}

/// The two pieces around the only `->` in `s`; `None` when `s` holds no `->`
/// or more than one (then `str::split` on `->` does not give two pieces).
pub open spec fn split_at_arrow(s: Seq<char>) -> Option<(Seq<char>, Seq<char>)> {
    if exists|i: int| arrow_at(s, i) && forall|j: int| #[trigger] arrow_at(s, j) ==> j == i {
        let i = choose|i: int| arrow_at(s, i) && forall|j: int| #[trigger] arrow_at(s, j) ==> j == i;
        Some((s.take(i), s.skip(i + 2)))
    } else {
        None
    }
}

/// The latency matrix of the reports: (from, to, average) for each report
/// whose key splits into two pieces at `->`, in order.
pub open spec fn matrix_of(entries: Seq<LatencyEntry>) -> Seq<(Seq<char>, Seq<char>, u64)>
    decreases entries.len(),
{
    if entries.len() == 0 {
        Seq::empty()
    } else {
        let rest = matrix_of(entries.drop_last());
        match split_at_arrow(entries.last().key@) {
            Some((a, b)) => rest.push((a, b, entries.last().latency_ms)),
            None => rest,
        }
    }
}

/// The view of a row of the latency matrix.
pub open spec fn matrix_view(rows: Seq<(String, String, u64)>) -> Seq<(Seq<char>, Seq<char>, u64)> {
    Seq::new(rows.len(), |i: int| (rows[i].0@, rows[i].1@, rows[i].2))
}

/// Where `->` stands in `s`: the only place, `None` when there is no or
/// more than one.
fn find_single_arrow(s: &str) -> (res: Option<usize>)
    ensures
        match res {
            Some(i) => arrow_at(s@, i as int) && forall|j: int| #[trigger] arrow_at(s@, j) ==> j == i,
            None => !exists|i: int| arrow_at(s@, i) && forall|j: int| #[trigger] arrow_at(s@, j) ==> j == i,
        },
{
    let n = s.unicode_len();
    let mut found: Option<usize> = None;
    let mut count: usize = 0;
    let mut i: usize = 0;
    while i < n
        invariant
            n == s@.len(),
            i <= n,
            count <= 2,
            count == 0 ==> found is None && forall|j: int| 0 <= j < i ==> !#[trigger] arrow_at(s@, j),
            count == 1 ==> (found matches Some(f) && f < i && arrow_at(s@, f as int) && forall|j: int|
                0 <= j < i && #[trigger] arrow_at(s@, j) ==> j == f),
            count == 2 ==> exists|a: int, b: int| a != b && arrow_at(s@, a) && arrow_at(s@, b),
        decreases n - i,
    {
        if i + 1 < n && s.get_char(i) == '-' && s.get_char(i + 1) == '>' {
            if count == 0 {
                found = Some(i);
                count = 1;
            } else if count == 1 {
                let f = found.unwrap();
                assert(arrow_at(s@, f as int) && arrow_at(s@, i as int));
                count = 2;
            }
        }
        i = i + 1;
    }
    proof {
        assert forall|j: int| i <= j implies !#[trigger] arrow_at(s@, j) by {}
    }
    if count == 1 {
        found
    } else {
        if count == 2 {
            assert(!exists|i: int| arrow_at(s@, i) && forall|j: int| #[trigger] arrow_at(s@, j) ==> j == i) by {
                let (a, b) = choose|a: int, b: int| a != b && arrow_at(s@, a) && arrow_at(s@, b);
                if exists|i: int| arrow_at(s@, i) && forall|j: int| #[trigger] arrow_at(s@, j) ==> j == i {
                    let c = choose|i: int| arrow_at(s@, i) && forall|j: int| #[trigger] arrow_at(s@, j) ==> j == i;
                    assert(arrow_at(s@, a) ==> a == c);
                    assert(arrow_at(s@, b) ==> b == c);
                }
            }
        }
        None
    }
}

impl CentralRegistry {
    /// No relays, rooms or reports.
    pub fn new() -> (r: CentralRegistry)
        ensures
            r.wf(),
            r.rooms_view() == Map::<Seq<char>, RoomInfo>::empty(),
            r.relays_view() == Map::<Seq<char>, RelayRecord>::empty(),
            r.latencies_view() == Map::<Seq<char>, LatencyEntry>::empty(),
            r.bindings_view() == Map::<Seq<char>, PeerBinding>::empty(),
    {
        let r = CentralRegistry {
            relays: Vec::new(),
            rooms: Vec::new(),
            latencies: Vec::new(),
            addr_to_id: Vec::new(),
        };
        assert(r.rooms_view() =~= Map::<Seq<char>, RoomInfo>::empty());
        assert(r.relays_view() =~= Map::<Seq<char>, RelayRecord>::empty());
        assert(r.latencies_view() =~= Map::<Seq<char>, LatencyEntry>::empty());
        assert(r.bindings_view() =~= Map::<Seq<char>, PeerBinding>::empty());
        r
    }

    /// Each table holds each key once.
    pub open spec fn wf(&self) -> bool {
        &&& keys_distinct(self.relays@)
        &&& keys_distinct(self.rooms@)
        &&& keys_distinct(self.latencies@)
        &&& keys_distinct(self.addr_to_id@)
    }

    /// The rooms by name.
    pub open spec fn rooms_view(&self) -> Map<Seq<char>, RoomInfo> {
        keyed_map(self.rooms@)
    }

    /// The relays by id.
    pub open spec fn relays_view(&self) -> Map<Seq<char>, RelayRecord> {
        keyed_map(self.relays@)
    }

    /// The latency reports by key.
    pub open spec fn latencies_view(&self) -> Map<Seq<char>, LatencyEntry> {
        keyed_map(self.latencies@)
    }

    /// The relay connections by peer address.
    pub open spec fn bindings_view(&self) -> Map<Seq<char>, PeerBinding> {
        keyed_map(self.addr_to_id@)
    }

    /// Creates a room hosted on relay `relay_id` at second `now`; `None`, and
    /// nothing changes, when the name is taken.
    pub fn create_room(&mut self, name: String, password: String, relay_id: String, now: u64) -> (res: Option<RoomInfo>)
        requires
            old(self).wf(),
        ensures
            final(self).wf(),
            final(self).relays == old(self).relays,
            final(self).latencies == old(self).latencies,
            final(self).addr_to_id == old(self).addr_to_id,
            old(self).rooms_view().contains_key(name@) ==> res is None && final(self).rooms_view()
                == old(self).rooms_view(),
            !old(self).rooms_view().contains_key(name@) ==> res == Some(
                RoomInfo { name, password_hash: password, host_relay_id: relay_id, created_at: now },
            ) && final(self).rooms_view() == old(self).rooms_view().insert(name@, res->0),
    {
        match position_of_key(&self.rooms, &name) {
            Some(_) => None,
            None => {
                let room = RoomInfo {
                    name,
                    password_hash: password,
                    host_relay_id: relay_id,
                    created_at: now,
                };
                let copy = room.duplicate();
                proof {
                    lemma_keyed_push(self.rooms@, room);
                }
                self.rooms.push(room);
                Some(copy)
            },
        }
    }

    /// The room `name`.
    pub fn get_room(&self, name: &String) -> (res: Option<RoomInfo>)
        requires
            self.wf(),
        ensures
            res == room_lookup(self.rooms_view(), name@),
    {
        match position_of_key(&self.rooms, name) {
            Some(i) => Some(self.rooms[i].duplicate()),
            None => None,
        }
    }

    /// Deletes the room `name`; whether it existed.
    pub fn delete_room(&mut self, name: &String) -> (existed: bool)
        requires
            old(self).wf(),
        ensures
            final(self).wf(),
            final(self).relays == old(self).relays,
            final(self).latencies == old(self).latencies,
            final(self).addr_to_id == old(self).addr_to_id,
            existed == old(self).rooms_view().contains_key(name@),
            final(self).rooms_view() == old(self).rooms_view().remove(name@),
    {
        match remove_key(&mut self.rooms, name) {
            Some(_) => true,
            None => false,
        }
    }

    /// Drops the rooms older than a day at second `now`; how many went.
    pub fn expire_rooms(&mut self, now: u64) -> (removed: usize)
        requires
            old(self).wf(),
            forall|i: int| 0 <= i < old(self).rooms@.len() ==> old(self).rooms@[i].created_at <= now,
        ensures
            final(self).wf(),
            final(self).relays == old(self).relays,
            final(self).latencies == old(self).latencies,
            final(self).addr_to_id == old(self).addr_to_id,
            forall|k: Seq<char>|
                #[trigger] final(self).rooms_view().contains_key(k) == (old(self).rooms_view().contains_key(k)
                    && room_alive(old(self).rooms_view()[k], now)),
            forall|k: Seq<char>|
                #[trigger] final(self).rooms_view().contains_key(k) ==> final(self).rooms_view()[k]
                    == old(self).rooms_view()[k],
            removed == old(self).rooms@.len() - final(self).rooms@.len(),
    {
        let mut rooms: Vec<RoomInfo> = Vec::new();
        std::mem::swap(&mut rooms, &mut self.rooms);
        let ghost all = rooms@;
        let mut kept: Vec<RoomInfo> = Vec::new();
        let mut i: usize = 0;
        while i < rooms.len()
            invariant
                rooms@ == all,
                keys_distinct(all),
                forall|j: int| 0 <= j < all.len() ==> all[j].created_at <= now,
                i <= all.len(),
                keys_distinct(kept@),
                kept@.len() <= i,
                forall|k: Seq<char>|
                    #[trigger] has_key(kept@, k) == exists|j: int|
                        0 <= j < i && all[j].key() == k && room_alive(all[j], now),
                forall|k: Seq<char>|
                    #[trigger] keyed_map(kept@).contains_key(k) ==> keyed_map(kept@)[k] == keyed_map(
                        all,
                    )[k],
            decreases all.len() - i,
        {
            if now - rooms[i].created_at < ROOM_LIFETIME_SECS {
                let r = rooms[i].duplicate();
                proof {
                    lemma_keyed_at(all, i as int);
                    assert(!has_key(kept@, r.key())) by {
                        if has_key(kept@, r.key()) {
                            let j = choose|j: int|
                                0 <= j < i && all[j].key() == r.key() && room_alive(all[j], now);
                            assert(all[j].key() != all[i as int].key());
                        }
                    }
                    lemma_keyed_push(kept@, r);
                    let p = kept@.push(r);
                    assert forall|k: Seq<char>| #[trigger] has_key(p, k) == exists|j: int|
                        0 <= j < i + 1 && all[j].key() == k && room_alive(all[j], now) by {
                        if k == r.key() {
                            assert(p[kept@.len() as int].key() == k);
                        }
                        if has_key(p, k) && k != r.key() {
                            let a = choose|a: int| 0 <= a < p.len() && #[trigger] p[a].key() == k;
                            assert(p[a] == kept@[a]);
                            assert(has_key(kept@, k));
                        }
                        if exists|j: int| 0 <= j < i + 1 && all[j].key() == k && room_alive(all[j], now) {
                            let j = choose|j: int| 0 <= j < i + 1 && all[j].key() == k && room_alive(all[j], now);
                            if j < i {
                                assert(has_key(kept@, k));
                                let a = choose|a: int| 0 <= a < kept@.len() && #[trigger] kept@[a].key() == k;
                                assert(p[a] == kept@[a]);
                            }
                        }
                    }
                }
                kept.push(r);
            } else {
                proof {
                    assert forall|k: Seq<char>| #[trigger] has_key(kept@, k) == exists|j: int|
                        0 <= j < i + 1 && all[j].key() == k && room_alive(all[j], now) by {
                        if exists|j: int| 0 <= j < i + 1 && all[j].key() == k && room_alive(all[j], now) {
                            let j = choose|j: int| 0 <= j < i + 1 && all[j].key() == k && room_alive(all[j], now);
                            assert(j != i);
                        }
                    }
                }
            }
            i = i + 1;
        }
        let removed = rooms.len() - kept.len();
        proof {
            assert forall|k: Seq<char>| #[trigger] keyed_map(kept@).contains_key(k) == (keyed_map(
                all,
            ).contains_key(k) && room_alive(keyed_map(all)[k], now)) by {
                if keyed_map(all).contains_key(k) {
                    let j = choose|j: int| 0 <= j < all.len() && #[trigger] all[j].key() == k;
                    lemma_keyed_at(all, j);
                }
                if keyed_map(kept@).contains_key(k) {
                    let j = choose|j: int|
                        0 <= j < all.len() && all[j].key() == k && room_alive(all[j], now);
                    lemma_keyed_at(all, j);
                }
            }
        }
        self.rooms = kept;
        removed
    }

    /// Registers relay `id` seen over the connection from `peer` at second `now`,
    /// replacing an earlier registration of the id or of the connection.
    pub fn register_relay(&mut self, id: String, name: String, address: String, peer: String, now: u64)
        requires
            old(self).wf(),
        ensures
            final(self).wf(),
            final(self).rooms == old(self).rooms,
            final(self).latencies == old(self).latencies,
            final(self).relays_view() == old(self).relays_view().insert(
                id@,
                RelayRecord { id, name, address, last_seen: now },
            ),
            final(self).bindings_view() == old(self).bindings_view().insert(
                peer@,
                PeerBinding { addr: peer, relay_id: id },
            ),
    {
        let record = RelayRecord { id: id.clone(), name, address, last_seen: now };
        upsert(&mut self.relays, record);
        upsert(&mut self.addr_to_id, PeerBinding { addr: peer, relay_id: id });
    }

    /// Puts back a relay saved from an earlier run, replacing a registration
    /// of the same id; no connection is bound to it.
    pub fn restore_relay(&mut self, record: RelayRecord)
        requires
            old(self).wf(),
        ensures
            final(self).wf(),
            final(self).rooms == old(self).rooms,
            final(self).latencies == old(self).latencies,
            final(self).addr_to_id == old(self).addr_to_id,
            final(self).relays_view() == old(self).relays_view().insert(record.id@, record),
    {
        upsert(&mut self.relays, record);
    }

    /// Notes a heartbeat of relay `id` at second `now`; whether the relay is known.
    pub fn heartbeat(&mut self, id: &String, now: u64) -> (known: bool)
        requires
            old(self).wf(),
        ensures
            final(self).wf(),
            final(self).rooms == old(self).rooms,
            final(self).latencies == old(self).latencies,
            final(self).addr_to_id == old(self).addr_to_id,
            known == old(self).relays_view().contains_key(id@),
            known ==> final(self).relays_view() == old(self).relays_view().insert(
                id@,
                RelayRecord { last_seen: now, ..old(self).relays_view()[id@] },
            ),
            !known ==> final(self).relays_view() == old(self).relays_view(),
    {
        match position_of_key(&self.relays, id) {
            Some(i) => {
                let mut r = self.relays[i].duplicate();
                r.last_seen = now;
                upsert(&mut self.relays, r);
                true
            },
            None => false,
        }
    }

    /// The registered relays.
    pub fn relay_list(&self) -> (list: Vec<RelayRecord>)
        ensures
            list@ == self.relays@,
    {
        let mut list: Vec<RelayRecord> = Vec::new();
        let mut i: usize = 0;
        while i < self.relays.len()
            invariant
                i <= self.relays@.len(),
                list@ == self.relays@.take(i as int),
            decreases self.relays@.len() - i,
        {
            list.push(self.relays[i].duplicate());
            assert(self.relays@.take(i + 1) =~= self.relays@.take(i as int).push(self.relays@[i as int]));
            i = i + 1;
        }
        assert(self.relays@.take(self.relays@.len() as int) =~= self.relays@);
        list
    }

    /// Drops the relays silent for longer than the timeout at second `now`,
    /// and returns their ids.
    #[verifier::rlimit(40)]
    pub fn expire_relays(&mut self, now: u64) -> (dead: Vec<String>)
        requires
            old(self).wf(),
            forall|i: int| 0 <= i < old(self).relays@.len() ==> old(self).relays@[i].last_seen <= now,
        ensures
            final(self).wf(),
            final(self).rooms == old(self).rooms,
            final(self).latencies == old(self).latencies,
            final(self).addr_to_id == old(self).addr_to_id,
            forall|k: Seq<char>|
                #[trigger] final(self).relays_view().contains_key(k) == (old(self).relays_view().contains_key(k)
                    && !relay_dead(old(self).relays_view()[k], now)),
            forall|k: Seq<char>|
                #[trigger] final(self).relays_view().contains_key(k) ==> final(self).relays_view()[k]
                    == old(self).relays_view()[k],
            forall|i: int|
                0 <= i < dead@.len() ==> old(self).relays_view().contains_key(#[trigger] dead@[i]@)
                    && relay_dead(old(self).relays_view()[dead@[i]@], now),
            forall|k: Seq<char>|
                old(self).relays_view().contains_key(k) && relay_dead(old(self).relays_view()[k], now)
                    ==> exists|i: int| 0 <= i < dead@.len() && #[trigger] dead@[i]@ == k,
            texts_view(dead@) == dead_ids(old(self).relays@, now),
    {
        let mut relays: Vec<RelayRecord> = Vec::new();
        std::mem::swap(&mut relays, &mut self.relays);
        let ghost all = relays@;
        let mut dead: Vec<String> = Vec::new();
        let mut i: usize = 0;
        while i < relays.len()
            invariant
                relays@ == all,
                forall|j: int| 0 <= j < all.len() ==> all[j].last_seen <= now,
                i <= all.len(),
                texts_view(dead@) == dead_ids(all.take(i as int), now),
            decreases all.len() - i,
        {
            assert(all.take(i + 1).drop_last() =~= all.take(i as int));
            if now - relays[i].last_seen > HEARTBEAT_TIMEOUT_SECS {
                let ghost before = dead@;
                dead.push(relays[i].id.clone());
                assert(texts_view(dead@) =~= texts_view(before).push(all[i as int].id@));
            }
            i = i + 1;
        }
        assert(all.take(all.len() as int) =~= all);
        let mut kept: Vec<RelayRecord> = Vec::new();
        let mut i: usize = 0;
        while i < relays.len()
            invariant
                relays@ == all,
                keys_distinct(all),
                forall|j: int| 0 <= j < all.len() ==> all[j].last_seen <= now,
                i <= all.len(),
                keys_distinct(kept@),
                forall|k: Seq<char>|
                    #[trigger] has_key(kept@, k) == exists|j: int|
                        0 <= j < i && all[j].key() == k && !relay_dead(all[j], now),
                forall|k: Seq<char>|
                    #[trigger] keyed_map(kept@).contains_key(k) ==> keyed_map(kept@)[k] == keyed_map(
                        all,
                    )[k],
            decreases all.len() - i,
        {
            if now - relays[i].last_seen <= HEARTBEAT_TIMEOUT_SECS {
                let r = relays[i].duplicate();
                proof {
                    lemma_keyed_at(all, i as int);
                    assert(!has_key(kept@, r.key())) by {
                        if has_key(kept@, r.key()) {
                            let j = choose|j: int|
                                0 <= j < i && all[j].key() == r.key() && !relay_dead(all[j], now);
                            assert(all[j].key() != all[i as int].key());
                        }
                    }
                    lemma_keyed_push(kept@, r);
                    let p = kept@.push(r);
                    assert forall|k: Seq<char>| #[trigger] has_key(p, k) == exists|j: int|
                        0 <= j < i + 1 && all[j].key() == k && !relay_dead(all[j], now) by {
                        if k == r.key() {
                            assert(p[kept@.len() as int].key() == k);
                        }
                        if has_key(p, k) && k != r.key() {
                            let a = choose|a: int| 0 <= a < p.len() && #[trigger] p[a].key() == k;
                            assert(p[a] == kept@[a]);
                            assert(has_key(kept@, k));
                        }
                        if exists|j: int|
                            0 <= j < i + 1 && all[j].key() == k && !relay_dead(all[j], now) {
                            let j = choose|j: int|
                                0 <= j < i + 1 && all[j].key() == k && !relay_dead(all[j], now);
                            if j < i {
                                assert(has_key(kept@, k));
                                let a = choose|a: int|
                                    0 <= a < kept@.len() && #[trigger] kept@[a].key() == k;
                                assert(p[a] == kept@[a]);
                            }
                        }
                    }
                }
                kept.push(r);
            } else {
                proof {
                    assert forall|k: Seq<char>| #[trigger] has_key(kept@, k) == exists|j: int|
                        0 <= j < i + 1 && all[j].key() == k && !relay_dead(all[j], now) by {
                        if exists|j: int|
                            0 <= j < i + 1 && all[j].key() == k && !relay_dead(all[j], now) {
                            let j = choose|j: int|
                                0 <= j < i + 1 && all[j].key() == k && !relay_dead(all[j], now);
                            assert(j != i);
                        }
                    }
                }
            }
            i = i + 1;
        }
        proof {
            assert forall|k: Seq<char>| #[trigger] keyed_map(kept@).contains_key(k) == (keyed_map(
                all,
            ).contains_key(k) && !relay_dead(keyed_map(all)[k], now)) by {
                if keyed_map(all).contains_key(k) {
                    let j = choose|j: int| 0 <= j < all.len() && #[trigger] all[j].key() == k;
                    lemma_keyed_at(all, j);
                }
                if keyed_map(kept@).contains_key(k) {
                    let j = choose|j: int|
                        0 <= j < all.len() && all[j].key() == k && !relay_dead(all[j], now);
                    lemma_keyed_at(all, j);
                }
            }
            lemma_dead_ids_members(all, now);
            assert forall|a: int| 0 <= a < dead@.len() implies keyed_map(all).contains_key(
                #[trigger] dead@[a]@,
            ) && relay_dead(keyed_map(all)[dead@[a]@], now) by {
                assert(texts_view(dead@)[a] == dead@[a]@);
                assert(dead_ids(all, now)[a] == dead@[a]@);
                assert(has_silent_relay(all, dead_ids(all, now)[a], now));
                let j = choose|j: int|
                    0 <= j < all.len() && #[trigger] silent_relay_is(all[j], dead_ids(all, now)[a], now);
                lemma_keyed_at(all, j);
            }
            assert forall|k: Seq<char>|
                keyed_map(all).contains_key(k) && relay_dead(keyed_map(all)[k], now) implies exists|
                a: int,
            | 0 <= a < dead@.len() && #[trigger] dead@[a]@ == k by {
                let j = choose|j: int| 0 <= j < all.len() && #[trigger] all[j].key() == k;
                lemma_keyed_at(all, j);
                assert(dead_ids(all, now).contains(k));
                let a = choose|a: int| 0 <= a < dead_ids(all, now).len() && dead_ids(all, now)[a] == k;
                assert(texts_view(dead@)[a] == dead@[a]@);
            }
        }
        self.relays = kept;
        dead
    }

    /// A relay connection from `peer` closed: its binding goes, and so does the
    /// relay registered over it, which is returned.
    pub fn disconnect(&mut self, peer: &String) -> (gone: Option<RelayRecord>)
        requires
            old(self).wf(),
        ensures
            final(self).wf(),
            final(self).rooms == old(self).rooms,
            final(self).latencies == old(self).latencies,
            final(self).bindings_view() == old(self).bindings_view().remove(peer@),
            match gone {
                Some(r) => old(self).bindings_view().contains_key(peer@) && {
                    let id = old(self).bindings_view()[peer@].relay_id@;
                    &&& old(self).relays_view().contains_key(id)
                    &&& r == old(self).relays_view()[id]
                    &&& final(self).relays_view() == old(self).relays_view().remove(id)
                },
                None => final(self).relays_view() == old(self).relays_view() && (
                !old(self).bindings_view().contains_key(peer@) || !old(self).relays_view().contains_key(
                    old(self).bindings_view()[peer@].relay_id@,
                )),
            },
    {
        match remove_key(&mut self.addr_to_id, peer) {
            Some(binding) => remove_key(&mut self.relays, &binding.relay_id),
            None => None,
        }
    }

    /// The key under which reports from `from_id` to `to_id` are kept.
    pub fn latency_key_of(from_id: &str, to_id: &str) -> (key: String)
        ensures
            key@ == latency_key(from_id@, to_id@),
    {
        let mut key = from_id.to_owned();
        proof {
            reveal_strlit("->");
        }
        key.append("->");
        key.append(to_id);
        key
    }

    /// Whether recording `latency_ms` under `from->to` keeps the sum of the
    /// samples within `u64`.
    pub fn latency_sample_fits(&self, from_id: &str, to_id: &str, latency_ms: u64) -> (ok: bool)
        requires
            self.wf(),
        ensures
            ok == (sum_samples(
                next_samples(samples_under(self.latencies_view(), latency_key(from_id@, to_id@)), latency_ms),
            ) <= u64::MAX),
    {
        let key = Self::latency_key_of(from_id, to_id);
        let mut samples: Vec<u64> = Vec::new();
        if let Some(i) = position_of_key(&self.latencies, &key) {
            let mut j: usize = 0;
            while j < self.latencies[i].samples.len()
                invariant
                    i < self.latencies@.len(),
                    j <= self.latencies@[i as int].samples@.len(),
                    samples@ == self.latencies@[i as int].samples@.take(j as int),
                decreases self.latencies@[i as int].samples@.len() - j,
            {
                samples.push(self.latencies[i].samples[j]);
                assert(self.latencies@[i as int].samples@.take(j + 1) =~= samples@);
                j = j + 1;
            }
            assert(self.latencies@[i as int].samples@.take(j as int) =~= self.latencies@[i as int].samples@);
        } else {
            assert(samples@ =~= Seq::<u64>::empty());
        }
        samples.push(latency_ms);
        if samples.len() > 10 {
            samples.remove(0);
        }
        let ghost s = samples@;
        let n = samples.len();
        let mut total: u128 = 0;
        let mut j: usize = 0;
        while j < n
            invariant
                samples@ == s,
                n == s.len(),
                j <= s.len(),
                total == sum_samples(s.take(j as int)),
                total <= j * 0xFFFF_FFFF_FFFF_FFFFu128,
            decreases s.len() - j,
        {
            assert(s.take(j + 1).drop_last() =~= s.take(j as int));
            total = total + samples[j] as u128;
            j = j + 1;
        }
        assert(s.take(s.len() as int) =~= s);
        total <= u64::MAX as u128
    }

    /// Records a latency report from `from_id` to `to_id`: the sample joins the
    /// last ten under `from->to` and the entry's latency becomes their average.
    pub fn record_latency(&mut self, from_id: &str, to_id: &str, latency_ms: u64)
        requires
            old(self).wf(),
            sum_samples(
                next_samples(
                    samples_under(old(self).latencies_view(), latency_key(from_id@, to_id@)),
                    latency_ms,
                ),
            ) <= u64::MAX,
        ensures
            final(self).wf(),
            final(self).rooms == old(self).rooms,
            final(self).relays == old(self).relays,
            final(self).addr_to_id == old(self).addr_to_id,
            ({
                let key = latency_key(from_id@, to_id@);
                let s = next_samples(samples_under(old(self).latencies_view(), key), latency_ms);
                &&& final(self).latencies_view().contains_key(key)
                &&& final(self).latencies_view()[key].samples@ == s
                &&& final(self).latencies_view()[key].latency_ms == sum_samples(s) / s.len() as int
                &&& old(self).latencies_view().contains_key(key) ==> final(self).latencies_view()[key].from_id
                    == old(self).latencies_view()[key].from_id && final(self).latencies_view()[key].to_id
                    == old(self).latencies_view()[key].to_id
                &&& !old(self).latencies_view().contains_key(key) ==> final(self).latencies_view()[key].from_id@
                    == from_id@ && final(self).latencies_view()[key].to_id@ == to_id@
                &&& forall|k: Seq<char>|
                    k != key ==> #[trigger] final(self).latencies_view().contains_key(k)
                        == old(self).latencies_view().contains_key(k) && (old(self).latencies_view().contains_key(k)
                        ==> final(self).latencies_view()[k] == old(self).latencies_view()[k])
            }),
    {
        let key = Self::latency_key_of(from_id, to_id);
        let ghost m0 = self.latencies_view();
        let mut entry = match remove_key(&mut self.latencies, &key) {
            Some(e) => e,
            None => LatencyEntry {
                key: key.clone(),
                from_id: from_id.to_owned(),
                to_id: to_id.to_owned(),
                latency_ms: 0,
                samples: Vec::new(),
            },
        };
        assert(entry.samples@ == samples_under(m0, key@));
        assert(entry.key() == key@);
        assert(!keyed_map(self.latencies@).contains_key(key@));
        assert(!has_key(self.latencies@, key@));
        entry.samples.push(latency_ms);
        if entry.samples.len() > 10 {
            entry.samples.remove(0);
            assert(entry.samples@ =~= next_samples(samples_under(m0, key@), latency_ms));
        }
        let total = sum_of(&entry.samples);
        entry.latency_ms = total / entry.samples.len() as u64;
        proof {
            lemma_keyed_push(self.latencies@, entry);
        }
        self.latencies.push(entry);
    }

    /// Whether some relay is registered under `id`.
    pub fn has_relay(&self, id: &String) -> (known: bool)
        requires
            self.wf(),
        ensures
            known == self.relays_view().contains_key(id@),
    {
        position_of_key(&self.relays, id).is_some()
    }

    /// The ids of the registered relays other than `id`, in order.
    pub fn relay_ids_except(&self, id: &str) -> (ids: Vec<String>)
        ensures
            texts_view(ids@) == ids_except(self.relays@, id@),
    {
        let skip = id.to_owned();
        let mut ids: Vec<String> = Vec::new();
        let mut i: usize = 0;
        while i < self.relays.len()
            invariant
                i <= self.relays@.len(),
                skip@ == id@,
                texts_view(ids@) == ids_except(self.relays@.take(i as int), id@),
            decreases self.relays@.len() - i,
        {
            assert(self.relays@.take(i + 1).drop_last() =~= self.relays@.take(i as int));
            if !(self.relays[i].id == skip) {
                ids.push(self.relays[i].id.clone());
                assert(texts_view(ids@) =~= ids_except(self.relays@.take(i as int), id@).push(
                    self.relays@[i as int].id@,
                ));
            }
            i = i + 1;
        }
        assert(self.relays@.take(self.relays@.len() as int) =~= self.relays@);
        ids
    }

    /// The relay that members of a room hosted on `host_relay_id` go through:
    /// the first other registered relay, or the host's own.
    pub fn member_relay_for(&self, host_relay_id: &str) -> (id: String)
        ensures
            id@ == member_relay(self.relays@, host_relay_id@),
    {
        let others = self.relay_ids_except(host_relay_id);
        if others.len() > 0 {
            others[0].clone()
        } else {
            host_relay_id.to_owned()
        }
    }

    /// The latency matrix: (from, to, average) for each report whose key
    /// splits at `->` into two pieces.
    pub fn latency_matrix(&self) -> (rows: Vec<(String, String, u64)>)
        ensures
            matrix_view(rows@) == matrix_of(self.latencies@),
    {
        let mut rows: Vec<(String, String, u64)> = Vec::new();
        let mut i: usize = 0;
        while i < self.latencies.len()
            invariant
                i <= self.latencies@.len(),
                matrix_view(rows@) == matrix_of(self.latencies@.take(i as int)),
            decreases self.latencies@.len() - i,
        {
            assert(self.latencies@.take(i + 1).drop_last() =~= self.latencies@.take(i as int));
            let key = self.latencies[i].key.as_str();
            match find_single_arrow(key) {
                Some(at) => {
                    let n = key.unicode_len();
                    let from = key.substring_char(0, at).to_owned();
                    let to = key.substring_char(at + 2, n).to_owned();
                    proof {
                        let c = choose|c: int| arrow_at(key@, c) && forall|j: int| #[trigger] arrow_at(key@, j) ==> j == c;
                        assert(c == at);
                    }
                    assert(from@ =~= key@.take(at as int));
                    assert(to@ =~= key@.skip(at + 2));
                    rows.push((from, to, self.latencies[i].latency_ms));
                    assert(matrix_view(rows@) =~= matrix_of(self.latencies@.take(i as int)).push(
                        (key@.take(at as int), key@.skip(at + 2), self.latencies@[i as int].latency_ms),
                    ));
                },
                None => {},
            }
            i = i + 1;
        }
        assert(self.latencies@.take(self.latencies@.len() as int) =~= self.latencies@);
        rows
    }
}

} // verus!
