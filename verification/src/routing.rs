//! Relay topology and lowest-latency relay chains.
use crate::text::texts_view;
use vstd::prelude::*;

verus! {

/// A relay server known to the topology.
#[derive(Debug, Clone)]
pub struct RelayNode {
    pub id: String,
    pub address: String,
}

/// The measured latency from one relay to another, in milliseconds.
#[derive(Debug, Clone)]
pub struct LatencyLink {
    pub from: String,
    pub to: String,
    pub latency_ms: u64,
}

/// The relays and the latency matrix between them: the measured latency of
/// each ordered pair of relay ids, one link per pair.
#[derive(Debug, Clone)]
pub struct RelayTopology {
    pub relays: Vec<RelayNode>,
    pub latency_matrix: Vec<LatencyLink>,
}

/// `ks` lists indices of `links` that chain from `from` to `to`: each link
/// starts where the previous one ends; the empty chain goes from a node to itself.
pub open spec fn link_chain(links: Seq<LatencyLink>, from: Seq<char>, to: Seq<char>, ks: Seq<int>) -> bool {
    &&& forall|i: int| #![trigger ks[i]] 0 <= i < ks.len() ==> 0 <= ks[i] < links.len()
    &&& if ks.len() == 0 {
        from == to
    } else {
        &&& links[ks[0]].from@ == from
        &&& links[ks.last()].to@ == to
        &&& forall|i: int|
            #![trigger ks[i]]
            0 <= i < ks.len() - 1 ==> links[ks[i]].to@ == links[ks[i + 1]].from@
    }
}

/// Total latency of a chain of links.
pub open spec fn chain_latency(links: Seq<LatencyLink>, ks: Seq<int>) -> int
    decreases ks.len(),
{
    if ks.len() == 0 {
        0
    } else {
        chain_latency(links, ks.drop_last()) + links[ks.last()].latency_ms
    }
}

/// The relay ids visited by a chain that starts at `from`.
pub open spec fn chain_nodes(links: Seq<LatencyLink>, from: Seq<char>, ks: Seq<int>) -> Seq<Seq<char>> {
    seq![from] + Seq::new(ks.len(), |i: int| links[ks[i]].to@)
}

/// A chain of links from `from` to `to` whose total latency stays below `u64::MAX`.
pub open spec fn reachable_below_max(links: Seq<LatencyLink>, from: Seq<char>, to: Seq<char>) -> bool {
    exists|ks: Seq<int>|
        #[trigger] link_chain(links, from, to, ks) && chain_latency(links, ks) < u64::MAX
}

/// No relay id occurs twice in `path`.
pub open spec fn no_repeats(path: Seq<Seq<char>>) -> bool {
    forall|i: int, j: int| 0 <= i < j < path.len() ==> path[i] != path[j]
}

/// `(path, cost)` is a lowest-latency route from `from` to `to`: `path` lists the
/// relays of a chain of links with total latency `cost`, visits no relay
/// twice, and no chain from `from` to `to` has a lower total latency.
pub open spec fn is_best_route(
    links: Seq<LatencyLink>,
    from: Seq<char>,
    to: Seq<char>,
    path: Seq<Seq<char>>,
    cost: u64,
) -> bool {
    &&& exists|ks: Seq<int>|
        #[trigger] link_chain(links, from, to, ks) && chain_latency(links, ks) == cost
            && chain_nodes(links, from, ks) == path
    &&& no_repeats(path)
    &&& cost < u64::MAX
    &&& forall|ks: Seq<int>|
        #[trigger] link_chain(links, from, to, ks) ==> cost <= chain_latency(links, ks)
}

/// The answer of `find_best_path`, viewed: the route of relay ids and its latency.
pub open spec fn route_view(res: Option<(Vec<String>, u64)>) -> Option<(Seq<Seq<char>>, u64)> {
    match res {
        Some((p, c)) => Some((texts_view(p@), c)),
        None => None,
    }
}

proof fn lemma_chain_nonneg(links: Seq<LatencyLink>, ks: Seq<int>)
    ensures
        chain_latency(links, ks) >= 0,
    decreases ks.len(),
{
    if ks.len() > 0 {
        lemma_chain_nonneg(links, ks.drop_last());
    }
}

/// Extending a chain by a link that starts where it ends.
proof fn lemma_chain_extend(links: Seq<LatencyLink>, from: Seq<char>, mid: Seq<char>, ks: Seq<int>, k: int)
    requires
        link_chain(links, from, mid, ks),
        0 <= k < links.len(),
        links[k].from@ == mid,
    ensures
        link_chain(links, from, links[k].to@, ks.push(k)),
        chain_latency(links, ks.push(k)) == chain_latency(links, ks) + links[k].latency_ms,
{
    let e = ks.push(k);
    assert(e.drop_last() =~= ks);
    assert forall|i: int| #![trigger e[i]] 0 <= i < e.len() - 1 implies links[e[i]].to@ == links[e[
        i + 1
    ]].from@ by {
        if i < ks.len() - 1 {
            assert(e[i] == ks[i] && e[i + 1] == ks[i + 1]);
        } else {
            assert(e[i] == ks.last());
        }
    }
}

/// Dropping the last link of a nonempty chain.
proof fn lemma_chain_shrink(links: Seq<LatencyLink>, from: Seq<char>, to: Seq<char>, ks: Seq<int>)
    requires
        link_chain(links, from, to, ks),
        ks.len() > 0,
    ensures
        link_chain(links, from, links[ks.last()].from@, ks.drop_last()),
        chain_latency(links, ks) == chain_latency(links, ks.drop_last())
            + links[ks.last()].latency_ms,
{
    let d = ks.drop_last();
    if d.len() > 0 {
        assert(links[d.last()].to@ == links[ks.last()].from@) by {
            assert(d.last() == ks[ks.len() - 2]);
        }
        assert forall|i: int| #![trigger d[i]] 0 <= i < d.len() - 1 implies links[d[i]].to@
            == links[d[i + 1]].from@ by {
            assert(d[i] == ks[i] && d[i + 1] == ks[i + 1]);
        }
        assert forall|i: int| #![trigger d[i]] 0 <= i < d.len() implies 0 <= d[i] < links.len() by {
            assert(d[i] == ks[i]);
        }
    }
}

/// `names` lists each id once.
pub open spec fn distinct_ids(names: Seq<String>) -> bool {
    forall|i: int, j: int| 0 <= i < j < names.len() ==> names[i]@ != names[j]@
}

/// The node table of the search: `names[0]` is the origin, and the endpoints of
/// link `k` are `names[src[k]]` and `names[dst[k]]`.
pub open spec fn node_table(
    links: Seq<LatencyLink>,
    from: Seq<char>,
    names: Seq<String>,
    src: Seq<usize>,
    dst: Seq<usize>,
) -> bool {
    &&& names.len() > 0
    &&& names[0]@ == from
    &&& distinct_ids(names)
    &&& src.len() == links.len()
    &&& dst.len() == links.len()
    &&& forall|k: int|
        #![trigger src[k]]
        0 <= k < links.len() ==> src[k] < names.len() && names[src[k] as int]@ == links[k].from@
    &&& forall|k: int|
        #![trigger dst[k]]
        0 <= k < links.len() ==> dst[k] < names.len() && names[dst[k] as int]@ == links[k].to@
}

/// `(c1, h1)` comes no later than `(c2, h2)`: a lower latency first, then,
/// at equal latency, fewer links.
pub open spec fn label_le(c1: int, h1: int, c2: int, h2: int) -> bool {
    c1 < c2 || (c1 == c2 && h1 <= h2)
}

/// `(c, h)` is the least label of a chain from `from` to `to`: the lowest
/// latency below `u64::MAX`, and among the chains of that latency the fewest
/// links.
pub open spec fn is_least_label(links: Seq<LatencyLink>, from: Seq<char>, to: Seq<char>, c: int, h: int) -> bool {
    &&& c < u64::MAX
    &&& exists|ks: Seq<int>|
        #[trigger] link_chain(links, from, to, ks) && chain_latency(links, ks) == c && ks.len() == h
    &&& forall|ks: Seq<int>|
        #[trigger] link_chain(links, from, to, ks) && chain_latency(links, ks) < u64::MAX
            ==> label_le(c, h, chain_latency(links, ks), ks.len() as int)
}

/// The least label of the chains from `from` to `to`.
pub open spec fn least_label(links: Seq<LatencyLink>, from: Seq<char>, to: Seq<char>) -> (int, int) {
    choose|c: int, h: int| is_least_label(links, from, to, c, h)
}

/// Link `k` ends at `to` and leaves a relay whose least label is that of `to`
/// less the link: it can end a least chain to `to`.
pub open spec fn on_least_route(links: Seq<LatencyLink>, from: Seq<char>, to: Seq<char>, k: int) -> bool {
    &&& 0 <= k < links.len()
    &&& links[k].to@ == to
    &&& is_least_label(
        links,
        from,
        links[k].from@,
        least_label(links, from, to).0 - links[k].latency_ms,
        least_label(links, from, to).1 - 1,
    )
}

/// The lowest-numbered link that can end a least chain to `to`.
pub open spec fn least_route_link(links: Seq<LatencyLink>, from: Seq<char>, to: Seq<char>) -> int {
    choose|k: int|
        on_least_route(links, from, to, k) && forall|j: int|
            0 <= j < k ==> !#[trigger] on_least_route(links, from, to, j)
}

/// The chain of `n` links to `to` built backwards, each time by the
/// lowest-numbered link that can end a least chain.
pub open spec fn least_route(links: Seq<LatencyLink>, from: Seq<char>, to: Seq<char>, n: nat) -> Seq<int>
    decreases n,
{
    if n == 0 {
        Seq::empty()
    } else {
        let k = least_route_link(links, from, to);
        least_route(links, from, links[k].from@, (n - 1) as nat).push(k)
    }
}

/// The route that `find_best_path` gives: `None` when no chain from `from` to
/// `to` stays below `u64::MAX`; otherwise the relays of the chain of least
/// latency, with the fewest links among those, built backwards from `to` by
/// taking at each relay the lowest-numbered link that can end such a chain,
/// and its latency.
pub open spec fn chosen_route(links: Seq<LatencyLink>, from: Seq<char>, to: Seq<char>) -> Option<
    (Seq<Seq<char>>, u64),
> {
    if reachable_below_max(links, from, to) {
        let (c, h) = least_label(links, from, to);
        Some((chain_nodes(links, from, least_route(links, from, to, h as nat)), c as u64))
    } else {
        None
    }
}

/// A chain has one least label at most.
proof fn lemma_least_label_unique(
    links: Seq<LatencyLink>,
    from: Seq<char>,
    to: Seq<char>,
    c1: int,
    h1: int,
    c2: int,
    h2: int,
)
    requires
        is_least_label(links, from, to, c1, h1),
        is_least_label(links, from, to, c2, h2),
    ensures
        c1 == c2 && h1 == h2,
{
    let k1 = choose|ks: Seq<int>|
        #[trigger] link_chain(links, from, to, ks) && chain_latency(links, ks) == c1 && ks.len() == h1;
    let k2 = choose|ks: Seq<int>|
        #[trigger] link_chain(links, from, to, ks) && chain_latency(links, ks) == c2 && ks.len() == h2;
    assert(label_le(c1, h1, c2, h2));
    assert(label_le(c2, h2, c1, h1));
}

/// Once `(c, h)` is a least label, it is the least label.
proof fn lemma_least_label_is(links: Seq<LatencyLink>, from: Seq<char>, to: Seq<char>, c: int, h: int)
    requires
        is_least_label(links, from, to, c, h),
    ensures
        least_label(links, from, to) == (c, h),
{
    let (c2, h2) = least_label(links, from, to);
    assert(is_least_label(links, from, to, c2, h2));
    lemma_least_label_unique(links, from, to, c, h, c2, h2);
}

/// The labels of the search: relay `v` with `dist[v] < u64::MAX` is reached
/// from the origin by the chain `walks[v]`, of latency `dist[v]` and
/// `hops[v]` links, a chain that visits no relay twice and passes each relay
/// with at least that relay's label.
pub open spec fn labels_sound(
    links: Seq<LatencyLink>,
    from: Seq<char>,
    names: Seq<String>,
    dist: Seq<u64>,
    hops: Seq<usize>,
    walks: Seq<Seq<int>>,
) -> bool {
    &&& dist.len() == names.len()
    &&& hops.len() == names.len()
    &&& walks.len() == names.len()
    &&& dist[0] == 0
    &&& hops[0] == 0
    &&& forall|v: int|
        #![trigger dist[v]]
        0 <= v < dist.len() && dist[v] < u64::MAX ==> {
            &&& link_chain(links, from, names[v]@, walks[v])
            &&& chain_latency(links, walks[v]) == dist[v]
            &&& walks[v].len() == hops[v]
            &&& walk_ok(links, from, names, dist, hops, walks[v])
        }
}

/// The chain `ks` from the origin visits no relay twice, and each relay it
/// visits has a label no later than the chain's latency and length up to it.
pub open spec fn walk_ok(
    links: Seq<LatencyLink>,
    from: Seq<char>,
    names: Seq<String>,
    dist: Seq<u64>,
    hops: Seq<usize>,
    ks: Seq<int>,
) -> bool {
    &&& no_repeats(chain_nodes(links, from, ks))
    &&& forall|t: int, y: int|
        #![trigger chain_nodes(links, from, ks)[t], names[y]]
        0 <= t <= ks.len() && 0 <= y < names.len() && names[y]@ == chain_nodes(links, from, ks)[t]
            ==> label_le(dist[y] as int, hops[y] as int, chain_latency(links, ks.take(t)), t)
}

/// No link gives a relay an earlier label: the labels are settled.
pub open spec fn labels_settled(
    links: Seq<LatencyLink>,
    src: Seq<usize>,
    dst: Seq<usize>,
    dist: Seq<u64>,
    hops: Seq<usize>,
) -> bool {
    forall|k: int|
        #![trigger src[k]]
        0 <= k < links.len() && dist[src[k] as int] + links[k].latency_ms < u64::MAX ==> label_le(
            dist[dst[k] as int] as int,
            hops[dst[k] as int] as int,
            dist[src[k] as int] + links[k].latency_ms,
            hops[src[k] as int] + 1,
        )
}

pub open spec fn sum_usize(s: Seq<usize>) -> int
    decreases s.len(),
{
    if s.len() == 0 {
        0
    } else {
        sum_usize(s.drop_last()) + s.last()
    }
}

proof fn lemma_sum_usize_nonneg(s: Seq<usize>)
    ensures
        sum_usize(s) >= 0,
    decreases s.len(),
{
    if s.len() > 0 {
        lemma_sum_usize_nonneg(s.drop_last());
    }
}

proof fn lemma_sum_usize_update_smaller(s: Seq<usize>, i: int, x: usize)
    requires
        0 <= i < s.len(),
        x < s[i],
    ensures
        sum_usize(s.update(i, x)) < sum_usize(s),
    decreases s.len(),
{
    let t = s.update(i, x);
    if i == s.len() - 1 {
        assert(t.drop_last() =~= s.drop_last());
    } else {
        assert(t.drop_last() =~= s.drop_last().update(i, x));
        lemma_sum_usize_update_smaller(s.drop_last(), i, x);
    }
}

/// A prefix of a chain is no longer, in latency, than the chain.
proof fn lemma_chain_prefix_le(links: Seq<LatencyLink>, ks: Seq<int>, t: int)
    requires
        0 <= t <= ks.len(),
    ensures
        chain_latency(links, ks.take(t)) <= chain_latency(links, ks),
    decreases ks.len(),
{
    if t == ks.len() {
        assert(ks.take(t) =~= ks);
    } else {
        let d = ks.drop_last();
        lemma_chain_prefix_le(links, d, t);
        assert(d.take(t) =~= ks.take(t));
    }
}

/// The latency of a chain with a link put in front.
proof fn lemma_chain_latency_prepend(links: Seq<LatencyLink>, k: int, ks: Seq<int>)
    ensures
        chain_latency(links, seq![k] + ks) == links[k].latency_ms + chain_latency(links, ks),
    decreases ks.len(),
{
    let s = seq![k] + ks;
    if ks.len() == 0 {
        assert(s.drop_last() =~= Seq::<int>::empty());
        assert(s.last() == k);
        assert(chain_latency(links, s.drop_last()) == 0);
        assert(chain_latency(links, ks) == 0);
    } else {
        lemma_chain_latency_prepend(links, k, ks.drop_last());
        assert(s.drop_last() =~= seq![k] + ks.drop_last());
        assert(s.last() == ks.last());
    }
}

/// A chain that visits no relay twice has fewer links than the table has relays.
proof fn lemma_simple_chain_short(
    links: Seq<LatencyLink>,
    from: Seq<char>,
    names: Seq<String>,
    src: Seq<usize>,
    dst: Seq<usize>,
    to: Seq<char>,
    ks: Seq<int>,
)
    requires
        node_table(links, from, names, src, dst),
        link_chain(links, from, to, ks),
        no_repeats(chain_nodes(links, from, ks)),
    ensures
        ks.len() < names.len(),
{
    let nodes = chain_nodes(links, from, ks);
    let idx = Seq::new(
        (ks.len() + 1) as nat,
        |t: int|
            if t == 0 {
                0int
            } else {
                dst[ks[t - 1]] as int
            },
    );
    assert forall|t: int| 0 <= t < idx.len() implies 0 <= idx[t] < names.len() && names[idx[t]]@
        == nodes[t] by {
        if t > 0 {
            assert(0 <= ks[t - 1] < links.len());
        }
    }
    assert(idx.no_duplicates()) by {
        assert forall|a: int, b: int|
            0 <= a < idx.len() && 0 <= b < idx.len() && a != b implies idx[a] != idx[b] by {
            if idx[a] == idx[b] {
                if a < b {
                    assert(nodes[a] != nodes[b]);
                } else {
                    assert(nodes[b] != nodes[a]);
                }
            }
        }
    }
    idx.unique_seq_to_set();
    vstd::set_lib::lemma_int_range(0, names.len() as int);
    assert(idx.to_set().subset_of(vstd::set_lib::set_int_range(0, names.len() as int))) by {
        assert forall|x: int| #[trigger] idx.to_set().contains(x) implies vstd::set_lib::set_int_range(
            0,
            names.len() as int,
        ).contains(x) by {
            assert(idx.contains(x));
            let t = choose|t: int| 0 <= t < idx.len() && idx[t] == x;
        }
    }
    vstd::set_lib::lemma_len_subset(idx.to_set(), vstd::set_lib::set_int_range(0, names.len() as int));
}

/// Giving relay `dst[k]` the label of link `k` from `src[k]`, when that label
/// comes strictly earlier, keeps the labels sound; the new chain cannot pass
/// `dst[k]` already, whose label it lowers.
proof fn lemma_relax(
    links: Seq<LatencyLink>,
    from: Seq<char>,
    names: Seq<String>,
    src: Seq<usize>,
    dst: Seq<usize>,
    dist: Seq<u64>,
    hops: Seq<usize>,
    walks: Seq<Seq<int>>,
    k: int,
    cost: u64,
    hc: usize,
)
    requires
        node_table(links, from, names, src, dst),
        labels_sound(links, from, names, dist, hops, walks),
        0 <= k < links.len(),
        dist[src[k] as int] < u64::MAX,
        cost == dist[src[k] as int] + links[k].latency_ms,
        hc == hops[src[k] as int] + 1,
        cost < dist[dst[k] as int] || (cost == dist[dst[k] as int] && hc < hops[dst[k] as int]),
    ensures
        dst[k] != 0,
        labels_sound(
            links,
            from,
            names,
            dist.update(dst[k] as int, cost),
            hops.update(dst[k] as int, hc),
            walks.update(dst[k] as int, walks[src[k] as int].push(k)),
        ),
{
    let u = src[k] as int;
    let v = dst[k] as int;
    let d2 = dist.update(v, cost);
    let h2 = hops.update(v, hc);
    let ku = walks[u];
    let nw = ku.push(k);
    let w2 = walks.update(v, nw);
    assert(dist[u] < u64::MAX);
    lemma_chain_extend(links, from, names[u]@, ku, k);
    let nu = chain_nodes(links, from, ku);
    let nn = chain_nodes(links, from, nw);
    assert(nn =~= nu.push(links[k].to@));
    assert(names[v]@ == links[k].to@);
    assert forall|t: int| 0 <= t < nu.len() implies nu[t] != names[v]@ by {
        if nu[t] == names[v]@ {
            assert(label_le(dist[v] as int, hops[v] as int, chain_latency(links, ku.take(t)), t));
            lemma_chain_prefix_le(links, ku, t);
        }
    }
    assert(no_repeats(nn)) by {
        assert forall|i: int, j: int| 0 <= i < j < nn.len() implies nn[i] != nn[j] by {
            if j < nu.len() {
                assert(nn[i] == nu[i] && nn[j] == nu[j]);
            } else {
                assert(nn[i] == nu[i]);
            }
        }
    }
    assert forall|t: int, y: int|
        #![trigger chain_nodes(links, from, nw)[t], names[y]]
        0 <= t <= nw.len() && 0 <= y < names.len() && names[y]@ == chain_nodes(links, from, nw)[t]
            implies label_le(d2[y] as int, h2[y] as int, chain_latency(links, nw.take(t)), t) by {
        if t < nw.len() {
            assert(nn[t] == nu[t]);
            assert(nw.take(t) =~= ku.take(t));
            assert(label_le(dist[y] as int, hops[y] as int, chain_latency(links, ku.take(t)), t));
        } else {
            assert(y == v) by {
                if y < v {
                    assert(names[y]@ != names[v]@);
                } else if v < y {
                    assert(names[v]@ != names[y]@);
                }
            }
            assert(nw.take(t) =~= nw);
        }
    }
    assert forall|x: int| #![trigger d2[x]] 0 <= x < d2.len() && d2[x] < u64::MAX implies {
        &&& link_chain(links, from, names[x]@, w2[x])
        &&& chain_latency(links, w2[x]) == d2[x]
        &&& w2[x].len() == h2[x]
        &&& walk_ok(links, from, names, d2, h2, w2[x])
    } by {
        if x != v {
            assert(d2[x] == dist[x] && h2[x] == hops[x] && w2[x] == walks[x]);
            let kx = walks[x];
            assert forall|t: int, y: int|
                #![trigger chain_nodes(links, from, kx)[t], names[y]]
                0 <= t <= kx.len() && 0 <= y < names.len() && names[y]@ == chain_nodes(
                    links,
                    from,
                    kx,
                )[t] implies label_le(d2[y] as int, h2[y] as int, chain_latency(links, kx.take(t)), t) by {
                assert(label_le(dist[y] as int, hops[y] as int, chain_latency(links, kx.take(t)), t));
            }
        }
    }
}

/// Settled labels come no later than any chain from the origin.
proof fn lemma_settled_is_lower_bound(
    links: Seq<LatencyLink>,
    from: Seq<char>,
    names: Seq<String>,
    src: Seq<usize>,
    dst: Seq<usize>,
    dist: Seq<u64>,
    hops: Seq<usize>,
    walks: Seq<Seq<int>>,
    to: Seq<char>,
    ks: Seq<int>,
)
    requires
        node_table(links, from, names, src, dst),
        labels_sound(links, from, names, dist, hops, walks),
        labels_settled(links, src, dst, dist, hops),
        link_chain(links, from, to, ks),
        chain_latency(links, ks) < u64::MAX,
    ensures
        exists|j: int|
            0 <= j < names.len() && names[j]@ == to && label_le(
                dist[j] as int,
                hops[j] as int,
                chain_latency(links, ks),
                ks.len() as int,
            ),
    decreases ks.len(),
{
    if ks.len() == 0 {
        assert(names[0]@ == to);
    } else {
        let k = ks.last();
        lemma_chain_shrink(links, from, to, ks);
        let d = ks.drop_last();
        lemma_chain_nonneg(links, d);
        lemma_settled_is_lower_bound(links, from, names, src, dst, dist, hops, walks, links[k].from@, d);
        let j = choose|j: int|
            0 <= j < names.len() && names[j]@ == links[k].from@ && label_le(
                dist[j] as int,
                hops[j] as int,
                chain_latency(links, d),
                d.len() as int,
            );
        let u = src[k] as int;
        assert(j == u) by {
            if j < u {
                assert(names[j]@ != names[u]@);
            } else if u < j {
                assert(names[u]@ != names[j]@);
            }
        }
        let v = dst[k] as int;
        assert(names[v]@ == to);
    }
}

/// At the settled labels, a relay's least label is its label, and a relay
/// without a label below `u64::MAX` has none.
proof fn lemma_label_is_least(
    links: Seq<LatencyLink>,
    from: Seq<char>,
    names: Seq<String>,
    src: Seq<usize>,
    dst: Seq<usize>,
    dist: Seq<u64>,
    hops: Seq<usize>,
    walks: Seq<Seq<int>>,
    y: int,
    c: int,
    h: int,
)
    requires
        node_table(links, from, names, src, dst),
        labels_sound(links, from, names, dist, hops, walks),
        labels_settled(links, src, dst, dist, hops),
        0 <= y < names.len(),
    ensures
        is_least_label(links, from, names[y]@, c, h) <==> (dist[y] < u64::MAX && c == dist[y] && h
            == hops[y]),
        dist[y] < u64::MAX ==> is_least_label(links, from, names[y]@, dist[y] as int, hops[y] as int),
{
    let to = names[y]@;
    if dist[y] < u64::MAX {
        assert(link_chain(links, from, to, walks[y]));
        assert forall|ks: Seq<int>|
            #[trigger] link_chain(links, from, to, ks) && chain_latency(links, ks) < u64::MAX
                implies label_le(dist[y] as int, hops[y] as int, chain_latency(links, ks), ks.len() as int) by {
            lemma_settled_is_lower_bound(links, from, names, src, dst, dist, hops, walks, to, ks);
            let j = choose|j: int|
                0 <= j < names.len() && names[j]@ == to && label_le(
                    dist[j] as int,
                    hops[j] as int,
                    chain_latency(links, ks),
                    ks.len() as int,
                );
            assert(j == y) by {
                if j < y {
                    assert(names[j]@ != names[y]@);
                } else if y < j {
                    assert(names[y]@ != names[j]@);
                }
            }
        }
        assert(is_least_label(links, from, to, dist[y] as int, hops[y] as int));
        if is_least_label(links, from, to, c, h) {
            lemma_least_label_unique(links, from, to, c, h, dist[y] as int, hops[y] as int);
        }
    } else {
        if is_least_label(links, from, to, c, h) {
            let ks = choose|ks: Seq<int>|
                #[trigger] link_chain(links, from, to, ks) && chain_latency(links, ks) == c && ks.len()
                    == h;
            lemma_settled_is_lower_bound(links, from, names, src, dst, dist, hops, walks, to, ks);
            let j = choose|j: int|
                0 <= j < names.len() && names[j]@ == to && label_le(
                    dist[j] as int,
                    hops[j] as int,
                    chain_latency(links, ks),
                    ks.len() as int,
                );
            assert(j == y) by {
                if j < y {
                    assert(names[j]@ != names[y]@);
                } else if y < j {
                    assert(names[y]@ != names[j]@);
                }
            }
        }
    }
}

/// Link `k` steps back from relay `cur` along the labels: it ends at `cur`,
/// and `cur`'s label is the label of its start plus the link.
pub open spec fn steps_back(
    links: Seq<LatencyLink>,
    src: Seq<usize>,
    dst: Seq<usize>,
    dist: Seq<u64>,
    hops: Seq<usize>,
    cur: int,
    k: int,
) -> bool {
    &&& 0 <= k < links.len()
    &&& dst[k] == cur
    &&& dist[src[k] as int] < u64::MAX
    &&& dist[src[k] as int] + links[k].latency_ms == dist[cur]
    &&& hops[src[k] as int] + 1 == hops[cur]
}

/// At the settled labels, stepping back along the labels is ending a least
/// chain; and a labelled relay other than the origin has such a link.
proof fn lemma_steps_back(
    links: Seq<LatencyLink>,
    from: Seq<char>,
    names: Seq<String>,
    src: Seq<usize>,
    dst: Seq<usize>,
    dist: Seq<u64>,
    hops: Seq<usize>,
    walks: Seq<Seq<int>>,
    cur: int,
)
    requires
        node_table(links, from, names, src, dst),
        labels_sound(links, from, names, dist, hops, walks),
        labels_settled(links, src, dst, dist, hops),
        0 <= cur < names.len(),
        dist[cur] < u64::MAX,
    ensures
        least_label(links, from, names[cur]@) == (dist[cur] as int, hops[cur] as int),
        forall|k: int|
            steps_back(links, src, dst, dist, hops, cur, k) <==> #[trigger] on_least_route(
                links,
                from,
                names[cur]@,
                k,
            ),
        hops[cur] > 0 ==> exists|k: int| #[trigger] steps_back(links, src, dst, dist, hops, cur, k),
        hops[cur] == 0 ==> cur == 0,
{
    lemma_label_is_least(links, from, names, src, dst, dist, hops, walks, cur, 0, 0);
    lemma_least_label_is(links, from, names[cur]@, dist[cur] as int, hops[cur] as int);
    assert forall|k: int|
        steps_back(links, src, dst, dist, hops, cur, k) <==> #[trigger] on_least_route(
            links,
            from,
            names[cur]@,
            k,
        ) by {
        if 0 <= k < links.len() {
            let u = src[k] as int;
            let w = links[k].latency_ms;
            assert(links[k].to@ == names[cur]@ <==> dst[k] == cur) by {
                let v = dst[k] as int;
                if v != cur {
                    if v < cur {
                        assert(names[v]@ != names[cur]@);
                    } else {
                        assert(names[cur]@ != names[v]@);
                    }
                }
            }
            lemma_label_is_least(
                links,
                from,
                names,
                src,
                dst,
                dist,
                hops,
                walks,
                u,
                dist[cur] - w,
                hops[cur] - 1,
            );
        }
    }
    let ku = walks[cur];
    if hops[cur] > 0 {
        let k0 = ku.last();
        lemma_chain_shrink(links, from, names[cur]@, ku);
        let d = ku.drop_last();
        lemma_chain_nonneg(links, d);
        lemma_settled_is_lower_bound(
            links,
            from,
            names,
            src,
            dst,
            dist,
            hops,
            walks,
            links[k0].from@,
            d,
        );
        let u = src[k0] as int;
        let j = choose|j: int|
            0 <= j < names.len() && names[j]@ == links[k0].from@ && label_le(
                dist[j] as int,
                hops[j] as int,
                chain_latency(links, d),
                d.len() as int,
            );
        assert(j == u) by {
            if j < u {
                assert(names[j]@ != names[u]@);
            } else if u < j {
                assert(names[u]@ != names[j]@);
            }
        }
        let v = dst[k0] as int;
        assert(v == cur) by {
            if v < cur {
                assert(names[v]@ != names[cur]@);
            } else if cur < v {
                assert(names[cur]@ != names[v]@);
            }
        }
        assert(steps_back(links, src, dst, dist, hops, cur, k0));
    } else {
        assert(ku.len() == 0);
        if cur != 0 {
            assert(names[0]@ != names[cur]@);
        }
    }
}

/// Relays with least labels of distinct lengths are distinct.
proof fn lemma_route_nodes_distinct(names: Seq<String>, hops: Seq<usize>, nodes: Seq<Seq<char>>, tys: Seq<int>)
    requires
        distinct_ids(names),
        nodes.len() == tys.len(),
        forall|i: int|
            0 <= i < tys.len() ==> 0 <= #[trigger] tys[i] < names.len() && names[tys[i]]@ == nodes[i]
                && hops[tys[i]] == i,
    ensures
        no_repeats(nodes),
{
    assert forall|a: int, b: int| 0 <= a < b < nodes.len() implies nodes[a] != nodes[b] by {
        let ya = tys[a];
        let yb = tys[b];
        if nodes[a] == nodes[b] {
            if ya < yb {
                assert(names[ya]@ != names[yb]@);
            } else if yb < ya {
                assert(names[yb]@ != names[ya]@);
            }
        }
    }
}

pub open spec fn sum_u64(s: Seq<u64>) -> int
    decreases s.len(),
{
    if s.len() == 0 {
        0
    } else {
        sum_u64(s.drop_last()) + s.last()
    }
}

proof fn lemma_sum_update_smaller(s: Seq<u64>, i: int, x: u64)
    requires
        0 <= i < s.len(),
        x < s[i],
    ensures
        sum_u64(s.update(i, x)) < sum_u64(s),
        sum_u64(s.update(i, x)) >= 0,
    decreases s.len(),
{
    let t = s.update(i, x);
    lemma_sum_nonneg(t);
    if i == s.len() - 1 {
        assert(t.drop_last() =~= s.drop_last());
    } else {
        assert(t.drop_last() =~= s.drop_last().update(i, x));
        lemma_sum_update_smaller(s.drop_last(), i, x);
    }
}

proof fn lemma_sum_nonneg(s: Seq<u64>)
    ensures
        sum_u64(s) >= 0,
    decreases s.len(),
{
    if s.len() > 0 {
        lemma_sum_nonneg(s.drop_last());
    }
}


/// Finds `s` among `names`.
fn position_of(names: &Vec<String>, s: &String) -> (res: Option<usize>)
    ensures
        match res {
            Some(i) => i < names@.len() && names@[i as int]@ == s@,
            None => forall|i: int| 0 <= i < names@.len() ==> names@[i]@ != s@,
        },
{
    let mut i: usize = 0;
    while i < names.len()
        invariant
            i <= names@.len(),
            forall|j: int| 0 <= j < i ==> names@[j]@ != s@,
        decreases names@.len() - i,
    {
        if names[i] == *s {
            return Some(i);
        }
        i = i + 1;
    }
    None
}

/// The index of `s` in `names`, appended first when absent.
fn intern(names: &mut Vec<String>, s: &String) -> (idx: usize)
    requires
        distinct_ids(old(names)@),
    ensures
        distinct_ids(final(names)@),
        final(names)@.len() >= old(names)@.len(),
        forall|j: int| 0 <= j < old(names)@.len() ==> final(names)@[j] == old(names)@[j],
        idx < final(names)@.len(),
        final(names)@[idx as int]@ == s@,
{
    match position_of(names, s) {
        Some(i) => i,
        None => {
            names.push(s.clone());
            names.len() - 1
        },
    }
}


/// The lowest-numbered link that steps back from relay `cur` along the labels.
fn step_back(
    links: &Vec<LatencyLink>,
    src: &Vec<usize>,
    dst: &Vec<usize>,
    dist: &Vec<u64>,
    hops: &Vec<usize>,
    cur: usize,
) -> (k: usize)
    requires
        src@.len() == links@.len(),
        dst@.len() == links@.len(),
        cur < dist@.len(),
        cur < hops@.len(),
        forall|k: int| 0 <= k < links@.len() ==> src@[k] < dist@.len() && src@[k] < hops@.len(),
        exists|k: int| #[trigger] steps_back(links@, src@, dst@, dist@, hops@, cur as int, k),
    ensures
        steps_back(links@, src@, dst@, dist@, hops@, cur as int, k as int),
        forall|j: int| 0 <= j < k ==> !#[trigger] steps_back(links@, src@, dst@, dist@, hops@, cur as int, j),
{
    let mut k: usize = 0;
    while k < links.len()
        invariant
            k <= links@.len(),
            src@.len() == links@.len(),
            dst@.len() == links@.len(),
            cur < dist@.len(),
            cur < hops@.len(),
            forall|k: int| 0 <= k < links@.len() ==> src@[k] < dist@.len() && src@[k] < hops@.len(),
            exists|k: int| #[trigger] steps_back(links@, src@, dst@, dist@, hops@, cur as int, k),
            forall|j: int| 0 <= j < k ==> !#[trigger] steps_back(links@, src@, dst@, dist@, hops@, cur as int, j),
        decreases links@.len() - k,
    {
        let u = src[k];
        let du = dist[u];
        let w = links[k].latency_ms;
        if dst[k] == cur && du < u64::MAX && w <= dist[cur] && du == dist[cur] - w && hops[u]
            < hops[cur] && hops[u] == hops[cur] - 1 {
            return k;
        }
        k = k + 1;
    }
    proof {
        let j = choose|j: int| #[trigger] steps_back(links@, src@, dst@, dist@, hops@, cur as int, j);
        assert(j < links@.len());
    }
    0
}

impl RelayTopology {
    /// Each ordered pair of relay ids has at most one link.
    pub open spec fn wf(&self) -> bool {
        forall|i: int, j: int|
            0 <= i < j < self.latency_matrix@.len() ==> !(self.latency_matrix@[i].from@
                == self.latency_matrix@[j].from@ && self.latency_matrix@[i].to@
                == self.latency_matrix@[j].to@)
    }

    /// A lowest-latency route from relay `from_id` to relay `to_id` over the
    /// latency matrix, with its total latency: exactly `chosen_route`, which is
    /// `([from_id], 0)` when the two are the same relay, `None` when no route
    /// with a total below `u64::MAX` exists, and otherwise, among the fastest
    /// routes, one with the fewest links, chosen by link order.
    pub fn find_best_path(&self, from_id: &str, to_id: &str) -> (res: Option<(Vec<String>, u64)>)
        requires
            self.wf(),
        ensures
            route_view(res) == chosen_route(self.latency_matrix@, from_id@, to_id@),
            from_id@ == to_id@ ==> route_view(res) == Some((seq![from_id@], 0u64)),
            res is None <==> !reachable_below_max(self.latency_matrix@, from_id@, to_id@),
            res matches Some((path, cost)) ==> is_best_route(
                self.latency_matrix@,
                from_id@,
                to_id@,
                texts_view(path@),
                cost,
            ),
    {
        let ghost links = self.latency_matrix@;
        let from = from_id.to_owned();
        let to = to_id.to_owned();
        if from == to {
            let mut p: Vec<String> = Vec::new();
            p.push(from);
            proof {
                let ks = Seq::<int>::empty();
                assert(link_chain(links, from_id@, to_id@, ks));
                assert(chain_nodes(links, from_id@, ks) =~= texts_view(p@));
                assert(texts_view(p@) =~= seq![from_id@]);
                assert forall|ks2: Seq<int>| #[trigger]
                    link_chain(links, from_id@, to_id@, ks2) implies 0 <= chain_latency(
                    links,
                    ks2,
                ) by {
                    lemma_chain_nonneg(links, ks2);
                }
                assert(is_least_label(links, from_id@, to_id@, 0, 0));
                lemma_least_label_is(links, from_id@, to_id@, 0, 0);
                assert(least_route(links, from_id@, to_id@, 0) =~= ks);
            }
            return Some((p, 0));
        }
        let n = self.latency_matrix.len();
        let mut names: Vec<String> = Vec::new();
        names.push(from.clone());
        let mut src: Vec<usize> = Vec::new();
        let mut dst: Vec<usize> = Vec::new();
        let mut k: usize = 0;
        while k < n
            invariant
                n == links.len(),
                links == self.latency_matrix@,
                names@.len() > 0,
                names@[0]@ == from_id@,
                distinct_ids(names@),
                src@.len() == k,
                dst@.len() == k,
                k <= n,
                forall|j: int|
                    #![trigger src@[j]]
                    0 <= j < k ==> src@[j] < names@.len() && names@[src@[j] as int]@
                        == links[j].from@,
                forall|j: int|
                    #![trigger dst@[j]]
                    0 <= j < k ==> dst@[j] < names@.len() && names@[dst@[j] as int]@
                        == links[j].to@,
            decreases n - k,
        {
            let ghost before = names@;
            let u = intern(&mut names, &self.latency_matrix[k].from);
            let ghost mid = names@;
            let v = intern(&mut names, &self.latency_matrix[k].to);
            proof {
                assert forall|j: int| #![trigger src@[j]] 0 <= j < k implies src@[j] < names@.len()
                    && names@[src@[j] as int]@ == links[j].from@ by {
                    assert(names@[src@[j] as int] == before[src@[j] as int]);
                }
                assert forall|j: int| #![trigger dst@[j]] 0 <= j < k implies dst@[j] < names@.len()
                    && names@[dst@[j] as int]@ == links[j].to@ by {
                    assert(names@[dst@[j] as int] == before[dst@[j] as int]);
                }
                assert(names@[u as int] == mid[u as int]);
            }
            src.push(u);
            dst.push(v);
            k = k + 1;
        }
        let m = names.len();
        let mut dist: Vec<u64> = Vec::new();
        let mut hops: Vec<usize> = Vec::new();
        let ghost mut walks: Seq<Seq<int>> = Seq::empty();
        let mut i: usize = 0;
        while i < m
            invariant
                m == names@.len(),
                i <= m,
                dist@.len() == i,
                hops@.len() == i,
                walks.len() == i,
                forall|v: int| 0 <= v < i ==> dist@[v] == (if v == 0 { 0u64 } else { u64::MAX }),
                forall|v: int| 0 <= v < i ==> hops@[v] == 0,
                forall|v: int| 0 <= v < i ==> walks[v].len() == 0,
            decreases m - i,
        {
            if i == 0 {
                dist.push(0);
            } else {
                dist.push(u64::MAX);
            }
            hops.push(0);
            proof {
                walks = walks.push(Seq::empty());
            }
            i = i + 1;
        }
        proof {
            assert(node_table(links, from_id@, names@, src@, dst@));
            assert forall|v: int| #![trigger dist@[v]] 0 <= v < dist@.len() && dist@[v] < u64::MAX implies {
                &&& link_chain(links, from_id@, names@[v]@, walks[v])
                &&& chain_latency(links, walks[v]) == dist@[v]
                &&& walks[v].len() == hops@[v]
                &&& walk_ok(links, from_id@, names@, dist@, hops@, walks[v])
            } by {
                let ks = walks[v];
                assert(v == 0);
                assert(ks =~= Seq::<int>::empty());
                assert(chain_nodes(links, from_id@, ks) =~= seq![from_id@]);
                assert forall|t: int, y: int|
                    #![trigger chain_nodes(links, from_id@, ks)[t], names@[y]]
                    0 <= t <= ks.len() && 0 <= y < names@.len() && names@[y]@ == chain_nodes(
                        links,
                        from_id@,
                        ks,
                    )[t] implies label_le(
                    dist@[y] as int,
                    hops@[y] as int,
                    chain_latency(links, ks.take(t)),
                    t,
                ) by {
                    assert(y == 0) by {
                        if y > 0 {
                            assert(names@[0]@ != names@[y]@);
                        }
                    }
                }
            }
        }
        loop
            invariant
                n == links.len(),
                m == names@.len(),
                links == self.latency_matrix@,
                node_table(links, from_id@, names@, src@, dst@),
                labels_sound(links, from_id@, names@, dist@, hops@, walks),
            ensures
                node_table(links, from_id@, names@, src@, dst@),
                labels_sound(links, from_id@, names@, dist@, hops@, walks),
                labels_settled(links, src@, dst@, dist@, hops@),
            decreases sum_u64(dist@), sum_usize(hops@),
        {
            let ghost start = dist@;
            let ghost start_h = hops@;
            proof {
                lemma_sum_nonneg(dist@);
                lemma_sum_usize_nonneg(hops@);
            }
            let mut changed = false;
            let mut k: usize = 0;
            while k < n
                invariant
                    n == links.len(),
                    m == names@.len(),
                    links == self.latency_matrix@,
                    k <= n,
                    node_table(links, from_id@, names@, src@, dst@),
                    labels_sound(links, from_id@, names@, dist@, hops@, walks),
                    sum_u64(dist@) >= 0,
                    sum_usize(hops@) >= 0,
                    changed ==> sum_u64(dist@) < sum_u64(start) || (sum_u64(dist@) == sum_u64(start)
                        && sum_usize(hops@) < sum_usize(start_h)),
                    !changed ==> dist@ == start && hops@ == start_h,
                    !changed ==> forall|j: int|
                        #![trigger src@[j]]
                        0 <= j < k && dist@[src@[j] as int] + links[j].latency_ms < u64::MAX
                            ==> label_le(
                            dist@[dst@[j] as int] as int,
                            hops@[dst@[j] as int] as int,
                            dist@[src@[j] as int] + links[j].latency_ms,
                            hops@[src@[j] as int] + 1,
                        ),
                decreases n - k,
            {
                let u = src[k];
                let v = dst[k];
                let w = self.latency_matrix[k].latency_ms;
                let du = dist[u];
                if du < u64::MAX && w < u64::MAX - du {
                    let cost = du + w;
                    proof {
                        lemma_simple_chain_short(
                            links,
                            from_id@,
                            names@,
                            src@,
                            dst@,
                            names@[u as int]@,
                            walks[u as int],
                        );
                        assert(dist@[u as int] < u64::MAX);
                        assert(walks[u as int].len() == hops@[u as int]);
                    }
                    let hc = hops[u] + 1;
                    if cost < dist[v] || (cost == dist[v] && hc < hops[v]) {
                        let ghost old_d = dist@;
                        let ghost old_h = hops@;
                        proof {
                            lemma_relax(
                                links,
                                from_id@,
                                names@,
                                src@,
                                dst@,
                                dist@,
                                hops@,
                                walks,
                                k as int,
                                cost,
                                hc,
                            );
                            if cost < dist@[v as int] {
                                lemma_sum_update_smaller(dist@, v as int, cost);
                            } else {
                                assert(dist@.update(v as int, cost) =~= dist@);
                                lemma_sum_usize_update_smaller(hops@, v as int, hc);
                            }
                            lemma_sum_usize_nonneg(hops@.update(v as int, hc));
                            walks = walks.update(v as int, walks[u as int].push(k as int));
                        }
                        dist.set(v, cost);
                        hops.set(v, hc);
                        changed = true;
                    }
                }
                k = k + 1;
            }
            if !changed {
                break;
            }
        }
        let target = position_of(&names, &to);
        match target {
            None => {
                proof {
                    assert forall|ks: Seq<int>| #[trigger]
                        link_chain(links, from_id@, to_id@, ks) implies chain_latency(links, ks)
                        >= u64::MAX by {
                        if chain_latency(links, ks) < u64::MAX {
                            lemma_settled_is_lower_bound(
                                links,
                                from_id@,
                                names@,
                                src@,
                                dst@,
                                dist@,
                                hops@,
                                walks,
                                to_id@,
                                ks,
                            );
                        }
                    }
                }
                None
            },
            Some(j) => {
                if dist[j] == u64::MAX {
                    proof {
                        assert forall|ks: Seq<int>| #[trigger]
                            link_chain(links, from_id@, to_id@, ks) implies chain_latency(links, ks)
                            >= u64::MAX by {
                            if chain_latency(links, ks) < u64::MAX {
                                lemma_settled_is_lower_bound(
                                    links,
                                    from_id@,
                                    names@,
                                    src@,
                                    dst@,
                                    dist@,
                                    hops@,
                                    walks,
                                    to_id@,
                                    ks,
                                );
                                let jj = choose|jj: int|
                                    0 <= jj < names@.len() && names@[jj]@ == to_id@ && label_le(
                                        dist@[jj] as int,
                                        hops@[jj] as int,
                                        chain_latency(links, ks),
                                        ks.len() as int,
                                    );
                                assert(jj == j as int) by {
                                    if jj < j {
                                        assert(names@[jj]@ != names@[j as int]@);
                                    } else if j < jj {
                                        assert(names@[j as int]@ != names@[jj]@);
                                    }
                                }
                            }
                        }
                    }
                    return None;
                }
                self.route_to(from_id, to_id, &names, &src, &dst, &dist, &hops, Ghost(walks), j)
            },
        }
    }

    /// Builds the route to relay `names[j]` from the settled labels, backwards
    /// from `names[j]` by the lowest-numbered link that steps back each time.
    fn route_to(
        &self,
        from_id: &str,
        to_id: &str,
        names: &Vec<String>,
        src: &Vec<usize>,
        dst: &Vec<usize>,
        dist: &Vec<u64>,
        hops: &Vec<usize>,
        Ghost(walks): Ghost<Seq<Seq<int>>>,
        j: usize,
    ) -> (res: Option<(Vec<String>, u64)>)
        requires
            node_table(self.latency_matrix@, from_id@, names@, src@, dst@),
            labels_sound(self.latency_matrix@, from_id@, names@, dist@, hops@, walks),
            labels_settled(self.latency_matrix@, src@, dst@, dist@, hops@),
            j < names@.len(),
            names@[j as int]@ == to_id@,
            dist@[j as int] < u64::MAX,
        ensures
            route_view(res) == chosen_route(self.latency_matrix@, from_id@, to_id@),
            res is Some,
            res matches Some((path, cost)) ==> is_best_route(
                self.latency_matrix@,
                from_id@,
                to_id@,
                texts_view(path@),
                cost,
            ),
    {
        let ghost links = self.latency_matrix@;
        let ghost from = from_id@;
        let ghost to = to_id@;
        proof {
            lemma_steps_back(links, from, names@, src@, dst@, dist@, hops@, walks, j as int);
            lemma_label_is_least(links, from, names@, src@, dst@, dist@, hops@, walks, j as int, 0, 0);
        }
        let mut cur: usize = j;
        let mut tail: Vec<usize> = Vec::new();
        let ghost mut tys: Seq<int> = seq![j as int];
        while hops[cur] > 0
            invariant
                node_table(links, from, names@, src@, dst@),
                labels_sound(links, from, names@, dist@, hops@, walks),
                labels_settled(links, src@, dst@, dist@, hops@),
                links == self.latency_matrix@,
                j < names@.len(),
                names@[j as int]@ == to,
                cur < names@.len(),
                dist@[cur as int] < u64::MAX,
                tys.len() == tail@.len() + 1,
                tys[0] == cur,
                tys.last() == j,
                forall|i: int|
                    0 <= i < tail@.len() ==> #[trigger] tail@[i] < links.len() && src@[tail@[i] as int]
                        == tys[i] && dst@[tail@[i] as int] == tys[i + 1],
                forall|i: int|
                    0 <= i < tys.len() ==> 0 <= #[trigger] tys[i] < names@.len() && hops@[tys[i]] == hops@[cur as int]
                        + i && dist@[tys[i]] < u64::MAX,
                chain_latency(links, tail@.map_values(|x: usize| x as int)) == dist@[j as int] - dist@[cur as int],
                least_route(links, from, to, hops@[j as int] as nat) == least_route(
                    links,
                    from,
                    names@[cur as int]@,
                    hops@[cur as int] as nat,
                ) + tail@.map_values(|x: usize| x as int),
            decreases hops@[cur as int],
        {
            proof {
                lemma_steps_back(links, from, names@, src@, dst@, dist@, hops@, walks, cur as int);
            }
            let k = step_back(&self.latency_matrix, src, dst, dist, hops, cur);
            let ghost old_tail = tail@.map_values(|x: usize| x as int);
            let ghost c = cur as int;
            proof {
                let cn = names@[c]@;
                assert(on_least_route(links, from, cn, k as int));
                assert forall|i: int| 0 <= i < k implies !#[trigger] on_least_route(links, from, cn, i) by {
                    assert(!steps_back(links, src@, dst@, dist@, hops@, c, i));
                }
                let lk = least_route_link(links, from, cn);
                assert(on_least_route(links, from, cn, lk) && forall|i: int|
                    0 <= i < lk ==> !#[trigger] on_least_route(links, from, cn, i));
                assert(lk == k as int) by {
                    if lk < k {
                        assert(!on_least_route(links, from, cn, lk));
                    } else if (k as int) < lk {
                        assert(!on_least_route(links, from, cn, k as int));
                    }
                }
                assert(links[k as int].from@ == names@[src@[k as int] as int]@);
                assert(least_route(links, from, cn, hops@[c] as nat) == least_route(
                    links,
                    from,
                    names@[src@[k as int] as int]@,
                    hops@[src@[k as int] as int] as nat,
                ).push(k as int));
                lemma_chain_latency_prepend(links, k as int, old_tail);
            }
            let ghost old_tv = tail@;
            let ghost old_tys = tys;
            tail.insert(0, k);
            cur = src[k];
            proof {
                let nt = tail@.map_values(|x: usize| x as int);
                assert(tail@ =~= seq![k] + old_tv);
                assert(nt =~= seq![k as int] + old_tail);
                let lr = least_route(links, from, names@[cur as int]@, hops@[cur as int] as nat);
                assert(lr.push(k as int) + old_tail =~= lr + nt);
                tys = seq![cur as int] + old_tys;
                assert forall|i: int| 0 <= i < tail@.len() implies #[trigger] tail@[i] < links.len()
                    && src@[tail@[i] as int] == tys[i] && dst@[tail@[i] as int] == tys[i + 1] by {
                    if i > 0 {
                        assert(tail@[i] == old_tv[i - 1]);
                        assert(tys[i] == old_tys[i - 1] && tys[i + 1] == old_tys[i]);
                    }
                }
                assert forall|i: int| 0 <= i < tys.len() implies 0 <= #[trigger] tys[i] < names@.len()
                    && hops@[tys[i]] == hops@[cur as int] + i && dist@[tys[i]] < u64::MAX by {
                    if i > 0 {
                        assert(tys[i] == old_tys[i - 1]);
                    }
                }
            }
        }
        proof {
            lemma_steps_back(links, from, names@, src@, dst@, dist@, hops@, walks, cur as int);
            assert(cur == 0);
        }
        let ghost ks = tail@.map_values(|x: usize| x as int);
        proof {
            assert(least_route(links, from, names@[0]@, 0) =~= Seq::<int>::empty());
            assert(least_route(links, from, to, hops@[j as int] as nat) =~= ks);
        }
        let cost = dist[j];
        let mut path: Vec<String> = Vec::new();
        path.push(from_id.to_owned());
        let tl = tail.len();
        let mut t: usize = 0;
        while t < tl
            invariant
                t <= tl,
                tl == tail@.len(),
                ks == tail@.map_values(|x: usize| x as int),
                links == self.latency_matrix@,
                forall|i: int| 0 <= i < tail@.len() ==> #[trigger] tail@[i] < links.len(),
                texts_view(path@) == chain_nodes(links, from, ks.take(t as int)),
            decreases tl - t,
        {
            let kk = tail[t];
            assert(kk < links.len());
            let ghost prev = path@;
            let name = self.latency_matrix[kk].to.clone();
            path.push(name);
            proof {
                assert(ks[t as int] == kk as int);
                assert(texts_view(path@) =~= texts_view(prev).push(links[kk as int].to@));
                assert(chain_nodes(links, from, ks.take(t + 1)) =~= chain_nodes(
                    links,
                    from,
                    ks.take(t as int),
                ).push(links[ks[t as int]].to@));
            }
            t = t + 1;
        }
        proof {
            assert(ks.take(tl as int) =~= ks);
            let nodes = chain_nodes(links, from, ks);
            assert(link_chain(links, from, to, ks)) by {
                assert forall|i: int| #![trigger ks[i]] 0 <= i < ks.len() implies 0 <= ks[i] < links.len() by {
                    assert(tail@[i] < links.len());
                }
                if ks.len() > 0 {
                    assert(links[ks[0]].from@ == names@[src@[ks[0]] as int]@);
                    assert(tys[0] == 0);
                    assert(links[ks.last()].to@ == names@[dst@[ks.last()] as int]@);
                    assert(dst@[tail@[ks.len() - 1] as int] == tys[ks.len() as int]);
                    assert forall|i: int| #![trigger ks[i]] 0 <= i < ks.len() - 1 implies links[ks[i]].to@
                        == links[ks[i + 1]].from@ by {
                        assert(dst@[tail@[i] as int] == tys[i + 1]);
                        assert(src@[tail@[i + 1] as int] == tys[i + 1]);
                    }
                } else {
                    assert(tys[0] == j as int);
                }
            }
            assert forall|i: int|
                0 <= i < tys.len() implies 0 <= #[trigger] tys[i] < names@.len() && names@[tys[i]]@ == nodes[i]
                    && hops@[tys[i]] == i by {
                if i > 0 {
                    assert(dst@[tail@[i - 1] as int] == tys[i]);
                    assert(ks[i - 1] == tail@[i - 1]);
                }
            }
            lemma_route_nodes_distinct(names@, hops@, nodes, tys);
            assert(least_label(links, from, to) == (dist@[j as int] as int, hops@[j as int] as int));
            assert(reachable_below_max(links, from, to)) by {
                assert(link_chain(links, from, to, walks[j as int]));
            }
            assert(is_least_label(links, from, to, dist@[j as int] as int, hops@[j as int] as int));
            assert forall|ks2: Seq<int>| #[trigger] link_chain(links, from, to, ks2) implies cost
                <= chain_latency(links, ks2) by {
                if chain_latency(links, ks2) < u64::MAX {
                    assert(label_le(
                        dist@[j as int] as int,
                        hops@[j as int] as int,
                        chain_latency(links, ks2),
                        ks2.len() as int,
                    ));
                }
            }
        }
        Some((path, cost))
    }

    /// The address of the relay with id `relay_id`, the first such relay when
    /// several share the id.
    pub fn get_relay_address(&self, relay_id: &str) -> (res: Option<String>)
        ensures
            match res {
                Some(a) => exists|i: int|
                    0 <= i < self.relays@.len() && self.relays@[i].id@ == relay_id@ && a@
                        == self.relays@[i].address@ && forall|j: int|
                        0 <= j < i ==> self.relays@[j].id@ != relay_id@,
                None => forall|i: int|
                    0 <= i < self.relays@.len() ==> self.relays@[i].id@ != relay_id@,
            },
    {
        let id = relay_id.to_owned();
        let mut i: usize = 0;
        while i < self.relays.len()
            invariant
                i <= self.relays@.len(),
                id@ == relay_id@,
                forall|j: int| 0 <= j < i ==> self.relays@[j].id@ != relay_id@,
            decreases self.relays@.len() - i,
        {
            if self.relays[i].id == id {
                return Some(self.relays[i].address.clone());
            }
            i = i + 1;
        }
        None
    }
}

/// The lowest-latency chain of relays from the host's relay to the member's:
/// what `find_best_path` gives for the two relays, `chosen_route`.
pub fn select_optimal_relay_chain(topology: &RelayTopology, host_relay_id: &str, client_relay_id: &str) -> (res: Option<(Vec<String>, u64)>)
    requires
        topology.wf(),
    ensures
        route_view(res) == chosen_route(topology.latency_matrix@, host_relay_id@, client_relay_id@),
        host_relay_id@ == client_relay_id@ ==> route_view(res) == Some((seq![host_relay_id@], 0u64)),
        res is None <==> !reachable_below_max(topology.latency_matrix@, host_relay_id@, client_relay_id@),
        res matches Some((path, cost)) ==> is_best_route(
            topology.latency_matrix@,
            host_relay_id@,
            client_relay_id@,
            texts_view(path@),
            cost,
        ),
{
    topology.find_best_path(host_relay_id, client_relay_id)
}

} // verus!
