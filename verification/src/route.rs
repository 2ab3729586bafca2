//! Table routes: the ordered region routes of one table, each with its
//! region, its leader peer and its follower peers, plus the derived
//! per-datanode region distribution.

use vstd::prelude::*;

use crate::partition::{PartitionDef, PartitionDefV};
use crate::seqs::{lemma_filter_all_false, lemma_filter_push};
use crate::storage::RegionNumber;

verus! {

/// Mathematical model of a [`Peer`].
pub struct PeerV {
    pub id: u64,
    pub addr: Seq<char>,
}

/// A cluster node that can host regions.
#[derive(Debug)]
pub struct Peer {
    pub id: u64,
    pub addr: String,
}

impl View for Peer {
    type V = PeerV;

    open spec fn view(&self) -> PeerV {
        PeerV { id: self.id, addr: self.addr@ }
    }
}

impl Clone for Peer {
    fn clone(&self) -> (r: Self)
        ensures
            r@ == self@,
    {
        Peer { id: self.id, addr: self.addr.clone() }
    }
}

impl Peer {
    pub fn new(id: u64, addr: &str) -> (r: Self)
        ensures
            r@ == (PeerV { id, addr: addr@ }),
    {
        Peer { id, addr: addr.to_owned() }
    }
}

/// Mathematical model of a [`Region`].
pub struct RegionV {
    pub id: u64,
    pub name: Seq<char>,
    pub partition: Option<PartitionDefV>,
}

/// A region entry of a table route.
#[derive(Debug)]
pub struct Region {
    pub id: u64,
    pub name: String,
    pub partition: Option<PartitionDef>,
}

impl View for Region {
    type V = RegionV;

    open spec fn view(&self) -> RegionV {
        RegionV {
            id: self.id,
            name: self.name@,
            partition: match self.partition {
                Some(p) => Some(p@),
                None => None,
            },
        }
    }
}

impl Clone for Region {
    fn clone(&self) -> (r: Self)
        ensures
            r@ == self@,
    {
        Region {
            id: self.id,
            name: self.name.clone(),
            partition: match &self.partition {
                Some(p) => Some(p.clone()),
                None => None,
            },
        }
    }
}

/// Mathematical model of a [`RegionRoute`].
pub struct RegionRouteV {
    pub region: RegionV,
    pub leader_peer: Option<PeerV>,
    pub follower_peers: Seq<PeerV>,
}

/// Placement of one region: its leader peer, if currently assigned, and
/// its follower peers.
#[derive(Debug)]
pub struct RegionRoute {
    pub region: Region,
    pub leader_peer: Option<Peer>,
    pub follower_peers: Vec<Peer>,
}

impl View for RegionRoute {
    type V = RegionRouteV;

    open spec fn view(&self) -> RegionRouteV {
        RegionRouteV {
            region: self.region@,
            leader_peer: match self.leader_peer {
                Some(p) => Some(p@),
                None => None,
            },
            follower_peers: self.follower_peers@.map_values(|p: Peer| p@),
        }
    }
}

impl Clone for RegionRoute {
    fn clone(&self) -> (r: Self)
        ensures
            r@ == self@,
    {
        let mut followers: Vec<Peer> = Vec::new();
        let mut i: usize = 0;
        while i < self.follower_peers.len()
            invariant
                i <= self.follower_peers.len(),
                followers@.len() == i,
                forall|j: int| 0 <= j < i ==> followers@[j]@ == self.follower_peers@[j]@,
            decreases self.follower_peers.len() - i,
        {
            followers.push(self.follower_peers[i].clone());
            i = i + 1;
        }
        let r = RegionRoute {
            region: self.region.clone(),
            leader_peer: match &self.leader_peer {
                Some(p) => Some(p.clone()),
                None => None,
            },
            follower_peers: followers,
        };
        proof {
            assert(r@.follower_peers =~= self@.follower_peers);
        }
        r
    }
}

/// View of a sequence of region routes.
pub open spec fn routes_view(s: Seq<RegionRoute>) -> Seq<RegionRouteV> {
    s.map_values(|r: RegionRoute| r@)
}

/// Copy of a region-route vector.
pub fn clone_routes(s: &Vec<RegionRoute>) -> (r: Vec<RegionRoute>)
    ensures
        routes_view(r@) == routes_view(s@),
{
    let mut r: Vec<RegionRoute> = Vec::new();
    let mut i: usize = 0;
    while i < s.len()
        invariant
            i <= s.len(),
            r@.len() == i,
            forall|j: int| 0 <= j < i ==> r@[j]@ == s@[j]@,
        decreases s.len() - i,
    {
        r.push(s[i].clone());
        i = i + 1;
    }
    proof {
        assert(routes_view(r@) =~= routes_view(s@));
    }
    r
}

/// The ordered region routes of one table.
#[derive(Debug)]
pub struct TableRoute {
    pub region_routes: Vec<RegionRoute>,
}

impl View for TableRoute {
    type V = Seq<RegionRouteV>;

    open spec fn view(&self) -> Seq<RegionRouteV> {
        routes_view(self.region_routes@)
    }
}

impl Clone for TableRoute {
    fn clone(&self) -> (r: Self)
        ensures
            r@ == self@,
    {
        TableRoute { region_routes: clone_routes(&self.region_routes) }
    }
}

/// The leader of the route whose region id equals the region number, if
/// both exist.
pub open spec fn spec_find_region_leader(routes: Seq<RegionRouteV>, region: RegionNumber) -> Option<
    PeerV,
> {
    let hits = routes.filter(|r: RegionRouteV| r.region.id == region as u64);
    if hits.len() > 0 {
        hits[0].leader_peer
    } else {
        None
    }
}

impl TableRoute {
    pub fn new(region_routes: Vec<RegionRoute>) -> (r: Self)
        ensures
            r@ == routes_view(region_routes@),
    {
        TableRoute { region_routes }
    }

    /// The leader peer of the given region, when the route carries the
    /// region and a leader is assigned to it.
    pub fn find_region_leader(&self, region: RegionNumber) -> (r: Option<&Peer>)
        ensures
            match r {
                Some(p) => spec_find_region_leader(self@, region) == Some(p@),
                None => spec_find_region_leader(self@, region) is None,
            },
    {
        let ghost pred = |r: RegionRouteV| r.region.id == region as u64;
        let mut i: usize = 0;
        proof {
            assert(self@.subrange(0, 0) =~= Seq::<RegionRouteV>::empty());
            reveal(Seq::filter);
        }
        while i < self.region_routes.len()
            invariant
                i <= self.region_routes@.len(),
                self@.len() == self.region_routes@.len(),
                pred == (|r: RegionRouteV| r.region.id == region as u64),
                forall|j: int| 0 <= j < i ==> !pred(#[trigger] self@[j]),
            decreases self.region_routes@.len() - i,
        {
            if self.region_routes[i].region.id == region as u64 {
                proof {
                    reveal(Seq::filter);
                    let hits = self@.filter(pred);
                    assert(pred(self@[i as int]));
                    assert(self@.subrange(0, i as int) =~= self@.take(i as int));
                    lemma_filter_all_false(self@.take(i as int), pred);
                    assert(self@ =~= self@.take(i as int) + self@.skip(i as int));
                    Seq::filter_distributes_over_add(
                        self@.take(i as int),
                        self@.skip(i as int),
                        pred,
                    );
                    assert(self@.skip(i as int)[0] == self@[i as int]);
                    assert(self@.skip(i as int) =~= seq![self@[i as int]] + self@.skip(i + 1));
                    Seq::filter_distributes_over_add(
                        seq![self@[i as int]],
                        self@.skip(i + 1),
                        pred,
                    );
                    assert(seq![self@[i as int]].drop_last() =~= Seq::<RegionRouteV>::empty());
                    assert(seq![self@[i as int]].filter(pred) =~= seq![self@[i as int]]);
                    assert(hits[0] == self@[i as int]);
                }
                return match &self.region_routes[i].leader_peer {
                    Some(p) => Some(p),
                    None => None,
                };
            }
            i = i + 1;
        }
        proof {
            lemma_filter_all_false(self@, pred);
        }
        None
    }
}

/// The leader peer id of a route, when one is assigned.
pub open spec fn leader_id_of(r: RegionRouteV) -> Option<u64> {
    match r.leader_peer {
        Some(p) => Some(p.id),
        None => None,
    }
}

/// The region number of a route: the low half of its region id.
pub open spec fn region_number_of(r: RegionRouteV) -> RegionNumber {
    (r.region.id % 0x1_0000_0000) as u32
}

/// Whether datanode `d` leads some region of the route set.
pub open spec fn leads_region(routes: Seq<RegionRouteV>, d: u64) -> bool {
    exists|j: int| 0 <= j < routes.len() && leader_id_of(#[trigger] routes[j]) == Some(d)
}

/// The region numbers led by one datanode, in route order.
pub open spec fn regions_of_datanode(routes: Seq<RegionRouteV>, d: u64) -> Seq<RegionNumber> {
    routes.filter(|r: RegionRouteV| leader_id_of(r) == Some(d)).map_values(
        |r: RegionRouteV| region_number_of(r),
    )
}

/// What [`region_distribution`] returns on success: one entry per
/// datanode that leads a region, datanode ids ascending, each entry
/// carrying the numbers of the regions that datanode leads, in route
/// order.
pub open spec fn distribution_ok(
    routes: Seq<RegionRouteV>,
    dist: Seq<(u64, Seq<RegionNumber>)>,
) -> bool {
    &&& forall|i: int, j: int|
        0 <= i < j < dist.len() ==> (#[trigger] dist[i]).0 < (#[trigger] dist[j]).0
    &&& forall|i: int|
        0 <= i < dist.len() ==> (#[trigger] dist[i]).1 == regions_of_datanode(routes, dist[i].0)
    &&& forall|d: u64| #[trigger]
        leads_region(routes, d) <==> exists|i: int| 0 <= i < dist.len() && (#[trigger] dist[i]).0
            == d
    &&& forall|j: int| 0 <= j < routes.len() ==> leader_id_of(#[trigger] routes[j]) is Some
}

/// View of a distribution list.
pub open spec fn dist_view(dist: Seq<(u64, Vec<RegionNumber>)>) -> Seq<(u64, Seq<RegionNumber>)> {
    dist.map_values(|e: (u64, Vec<RegionNumber>)| (e.0, e.1@))
}

/// The per-datanode region distribution of a route set: for each
/// datanode that leads at least one region, the numbers of the regions
/// it leads, in route order; datanodes ascend. `None` when some region
/// has no leader.
pub fn region_distribution(region_routes: &Vec<RegionRoute>) -> (r: Option<
    Vec<(u64, Vec<RegionNumber>)>,
>)
    ensures
        match r {
            Some(dist) => distribution_ok(routes_view(region_routes@), dist_view(dist@)),
            None => exists|j: int|
                0 <= j < routes_view(region_routes@).len() && leader_id_of(
                    #[trigger] routes_view(region_routes@)[j],
                ) is None,
        },
{
    let ghost rv = routes_view(region_routes@);

    // Collect the datanode ids that lead regions, ascending.
    let mut keys: Vec<u64> = Vec::new();
    let mut i: usize = 0;
    while i < region_routes.len()
        invariant
            i <= region_routes@.len(),
            rv == routes_view(region_routes@),
            rv.len() == region_routes@.len(),
            forall|a: int, b: int| 0 <= a < b < keys@.len() ==> keys@[a] < keys@[b],
            forall|j: int| 0 <= j < i ==> leader_id_of(#[trigger] rv[j]) is Some,
            forall|j: int|
                0 <= j < i ==> keys@.contains((leader_id_of(#[trigger] rv[j])).unwrap()),
            forall|a: int|
                0 <= a < keys@.len() ==> exists|j: int|
                    0 <= j < i && leader_id_of(#[trigger] rv[j]) == Some(#[trigger] keys@[a]),
        decreases region_routes@.len() - i,
    {
        let d = match &region_routes[i].leader_peer {
            Some(p) => p.id,
            None => {
                proof {
                    assert(leader_id_of(rv[i as int]) is None);
                }
                return None;
            },
        };
        proof {
            assert(leader_id_of(rv[i as int]) == Some(d));
        }
        // Insert `d` at its place unless present.
        let ghost keys0 = keys@;
        let mut pos: usize = 0;
        let mut present = false;
        while pos < keys.len() && !present && keys[pos] < d
            invariant
                pos <= keys@.len(),
                keys@ == keys0,
                forall|a: int, b: int| 0 <= a < b < keys@.len() ==> keys@[a] < keys@[b],
                forall|a: int| 0 <= a < pos ==> keys@[a] < d,
                present ==> pos < keys@.len() && keys@[pos as int] == d,
            decreases keys@.len() - pos,
        {
            if keys[pos] == d {
                present = true;
            } else {
                pos = pos + 1;
            }
        }
        if pos < keys.len() && !present && keys[pos] == d {
            present = true;
        }
        if !present {
            keys.insert(pos, d);
            proof {
                assert forall|a: int, b: int|
                    0 <= a < b < keys@.len() implies keys@[a] < keys@[b] by {
                    if b < pos {
                    } else if a < pos && b == pos {
                    } else if a == pos {
                        assert(keys@[b] == keys0[b - 1]);
                        assert(keys0[b - 1] >= d);
                        if keys0[b - 1] == d {
                            assert(false);
                        }
                    } else if a > pos {
                        assert(keys@[a] == keys0[a - 1]);
                        assert(keys@[b] == keys0[b - 1]);
                    } else {
                        assert(keys@[a] == keys0[a]);
                        assert(keys@[b] == keys0[b - 1]);
                    }
                }
            }
        }
        proof {
            assert(keys@.contains(d)) by {
                if present {
                    assert(keys@[pos as int] == d);
                } else {
                    assert(keys@[pos as int] == d);
                }
            }
            assert forall|j: int|
                0 <= j < i + 1 implies keys@.contains(
                (leader_id_of(#[trigger] rv[j])).unwrap(),
            ) by {
                if j < i {
                    let dj = (leader_id_of(rv[j])).unwrap();
                    let a = choose|a: int| 0 <= a < keys0.len() && keys0[a] == dj;
                    if !present {
                        if a < pos {
                            assert(keys@[a] == dj);
                        } else {
                            assert(keys@[a + 1] == dj);
                        }
                    }
                }
            }
            assert forall|a: int|
                0 <= a < keys@.len() implies exists|j: int|
                0 <= j < i + 1 && leader_id_of(#[trigger] rv[j]) == Some(#[trigger] keys@[a]) by {
                if keys@[a] == d {
                    assert(leader_id_of(rv[i as int]) == Some(keys@[a]));
                } else {
                    let a0: int = if !present && a > pos { a - 1 } else { a };
                    assert(keys0[a0] == keys@[a]);
                    let j = choose|j: int|
                        0 <= j < i && leader_id_of(#[trigger] rv[j]) == Some(keys0[a0]);
                    assert(leader_id_of(rv[j]) == Some(keys@[a]));
                }
            }
        }
        i = i + 1;
    }

    // For each datanode, collect its region numbers in route order.
    let mut dist: Vec<(u64, Vec<RegionNumber>)> = Vec::new();
    let mut a: usize = 0;
    let ghost final_keys = keys@;
    while a < keys.len()
        invariant
            a <= keys@.len(),
            keys@ == final_keys,
            rv == routes_view(region_routes@),
            rv.len() == region_routes@.len(),
            dist@.len() == a,
            forall|m: int| 0 <= m < a ==> (#[trigger] dist@[m]).0 == keys@[m],
            forall|m: int|
                0 <= m < a ==> (#[trigger] dist@[m]).1@ == regions_of_datanode(rv, keys@[m]),
        decreases keys@.len() - a,
    {
        let d = keys[a];
        let ghost pred = |r: RegionRouteV| leader_id_of(r) == Some(d);
        let mut nums: Vec<RegionNumber> = Vec::new();
        let mut j: usize = 0;
        proof {
            assert(rv.subrange(0, 0) =~= Seq::<RegionRouteV>::empty());
            reveal(Seq::filter);
        }
        while j < region_routes.len()
            invariant
                j <= region_routes@.len(),
                rv == routes_view(region_routes@),
                rv.len() == region_routes@.len(),
                pred == (|r: RegionRouteV| leader_id_of(r) == Some(d)),
                nums@ == rv.subrange(0, j as int).filter(pred).map_values(
                    |r: RegionRouteV| region_number_of(r),
                ),
            decreases region_routes@.len() - j,
        {
            proof {
                assert(rv.subrange(0, j + 1) =~= rv.subrange(0, j as int).push(rv[j as int]));
                lemma_filter_push(rv.subrange(0, j as int), rv[j as int], pred);
            }
            let is_led = match &region_routes[j].leader_peer {
                Some(p) => p.id == d,
                None => false,
            };
            if is_led {
                let num = (region_routes[j].region.id % 0x1_0000_0000) as u32;
                proof {
                    assert(pred(rv[j as int]));
                    assert(num == region_number_of(rv[j as int]));
                    assert(rv.subrange(0, j as int).filter(pred).push(rv[j as int]).map_values(
                        |r: RegionRouteV| region_number_of(r),
                    ) =~= rv.subrange(0, j as int).filter(pred).map_values(
                        |r: RegionRouteV| region_number_of(r),
                    ).push(region_number_of(rv[j as int])));
                }
                nums.push(num);
            } else {
                proof {
                    assert(!pred(rv[j as int]));
                }
            }
            j = j + 1;
        }
        proof {
            assert(rv.subrange(0, rv.len() as int) =~= rv);
        }
        dist.push((d, nums));
        a = a + 1;
    }
    proof {
        assert forall|d: u64| #[trigger] leads_region(rv, d) implies exists|i2: int|
            0 <= i2 < dist@.len() && (#[trigger] dist@[i2]).0 == d by {
            let j = choose|j: int| 0 <= j < rv.len() && leader_id_of(#[trigger] rv[j]) == Some(d);
            assert(final_keys.contains(d));
            let a2 = choose|a2: int| 0 <= a2 < final_keys.len() && final_keys[a2] == d;
            assert((dist@[a2]).0 == d);
        }
        assert forall|d: u64|
            (exists|i2: int| 0 <= i2 < dist@.len() && (#[trigger] dist@[i2]).0 == d) implies
            #[trigger] leads_region(rv, d) by {
            let a2 = choose|a2: int| 0 <= a2 < dist@.len() && (#[trigger] dist@[a2]).0 == d;
            let j = choose|j: int| 0 <= j < i && leader_id_of(#[trigger] rv[j]) == Some(keys@[a2]);
            assert(leader_id_of(rv[j]) == Some(d));
        }
        let dv = dist_view(dist@);
        assert(dv.len() == dist@.len());
        assert(forall|m: int| 0 <= m < dv.len() ==> #[trigger] dv[m] == (dist@[m].0, dist@[m].1@));
        assert forall|d: u64| #[trigger] leads_region(rv, d) implies exists|i2: int|
            0 <= i2 < dv.len() && (#[trigger] dv[i2]).0 == d by {
            let i2 = choose|i2: int| 0 <= i2 < dist@.len() && (#[trigger] dist@[i2]).0 == d;
            assert((dv[i2]).0 == d);
        }
        assert forall|d: u64|
            (exists|i2: int| 0 <= i2 < dv.len() && (#[trigger] dv[i2]).0 == d) implies #[trigger]
            leads_region(rv, d) by {
            let i2 = choose|i2: int| 0 <= i2 < dv.len() && (#[trigger] dv[i2]).0 == d;
            assert((dist@[i2]).0 == d);
        }
        assert(distribution_ok(rv, dv));
    }
    Some(dist)
}

/// Whether some peer in the sequence carries the given id.
pub open spec fn has_peer_id(s: Seq<Peer>, d: u64) -> bool {
    exists|a: int| 0 <= a < s.len() && (#[trigger] s[a]).id == d
}

/// Extending a peer list by one peer extends the ids it carries by
/// exactly that peer's id.
proof fn lemma_has_peer_id_push(s: Seq<Peer>, p: Peer)
    ensures
        forall|d: u64| #[trigger] has_peer_id(s.push(p), d) <==> has_peer_id(s, d) || d == p.id,
{
    assert forall|d: u64| #[trigger] has_peer_id(s.push(p), d) implies has_peer_id(s, d) || d
        == p.id by {
        let a = choose|a: int| 0 <= a < s.push(p).len() && (#[trigger] s.push(p)[a]).id == d;
        if a < s.len() {
            assert(s[a].id == d);
        }
    }
    assert forall|d: u64| has_peer_id(s, d) || d == p.id implies #[trigger] has_peer_id(
        s.push(p),
        d,
    ) by {
        if has_peer_id(s, d) {
            let a = choose|a: int| 0 <= a < s.len() && (#[trigger] s[a]).id == d;
            assert(s.push(p)[a].id == d);
        } else {
            assert(s.push(p)[s.len() as int].id == d);
        }
    }
}

/// Pushes the peer unless a peer with its id is already there.
fn push_peer_if_new(r: &mut Vec<Peer>, p: &Peer)
    requires
        forall|a: int, b: int|
            0 <= a < b < old(r)@.len()
                ==> (#[trigger] old(r)@[a]).id != (#[trigger] old(r)@[b]).id,
    ensures
        forall|a: int, b: int|
            0 <= a < b < final(r)@.len()
                ==> (#[trigger] final(r)@[a]).id != (#[trigger] final(r)@[b]).id,
        forall|d: u64| #[trigger]
            has_peer_id(final(r)@, d) <==> has_peer_id(old(r)@, d) || d == p.id,
{
    let ghost r0 = r@;
    if !contains_peer_id(r, p.id) {
        let cp = p.clone();
        let ghost cpg = cp;
        r.push(cp);
        proof {
            assert(cpg.id == p.id);
            lemma_has_peer_id_push(r0, cpg);
            assert forall|a: int, b: int|
                0 <= a < b < r@.len() implies (#[trigger] r@[a]).id != (#[trigger] r@[b]).id by {
                if b == r@.len() - 1 {
                    assert(r@[a] == r0[a]);
                    if r0[a].id == cpg.id {
                        assert(has_peer_id(r0, cpg.id));
                    }
                }
            }
        }
    } else {
        proof {
            assert forall|d: u64| #[trigger]
                has_peer_id(r@, d) <==> has_peer_id(r0, d) || d == p.id by {
                assert(has_peer_id(r0, p.id));
            }
        }
    }
}

/// The distinct peers named by a route set, leaders and followers, in
/// order of first appearance.
pub fn extract_all_peers(region_routes: &Vec<RegionRoute>) -> (r: Vec<Peer>)
    ensures
        forall|a: int, b: int|
            0 <= a < b < r@.len() ==> (#[trigger] r@[a]).id != (#[trigger] r@[b]).id,
        forall|d: u64| #[trigger]
            has_peer_id(r@, d) <==> route_peer_ids(routes_view(region_routes@)).contains(d),
{
    let ghost rv = routes_view(region_routes@);
    let mut r: Vec<Peer> = Vec::new();
    let mut i: usize = 0;
    proof {
        assert(rv.subrange(0, 0) =~= Seq::<RegionRouteV>::empty());
    }
    while i < region_routes.len()
        invariant
            i <= region_routes@.len(),
            rv == routes_view(region_routes@),
            rv.len() == region_routes@.len(),
            forall|a: int, b: int|
                0 <= a < b < r@.len() ==> (#[trigger] r@[a]).id != (#[trigger] r@[b]).id,
            forall|d: u64| #[trigger]
                has_peer_id(r@, d) <==> route_peer_ids(rv.subrange(0, i as int)).contains(d),
        decreases region_routes@.len() - i,
    {
        let ghost r0 = r@;
        let route = &region_routes[i];
        let mut leader_id: Option<u64> = None;
        match &route.leader_peer {
            Some(p) => {
                push_peer_if_new(&mut r, p);
                leader_id = Some(p.id);
            },
            None => {},
        }
        let ghost r_after_leader = r@;
        proof {
            assert(route.follower_peers@.take(0) =~= Seq::<Peer>::empty());
        }
        let mut k: usize = 0;
        while k < route.follower_peers.len()
            invariant
                k <= route.follower_peers@.len(),
                forall|a: int, b: int|
                    0 <= a < b < r@.len() ==> (#[trigger] r@[a]).id != (#[trigger] r@[b]).id,
                forall|d: u64| #[trigger]
                    has_peer_id(r@, d) <==> has_peer_id(r_after_leader, d) || has_peer_id(
                        route.follower_peers@.take(k as int),
                        d,
                    ),
            decreases route.follower_peers@.len() - k,
        {
            let ghost r1 = r@;
            let p = &route.follower_peers[k];
            push_peer_if_new(&mut r, p);
            proof {
                assert(route.follower_peers@.take(k + 1) =~= route.follower_peers@.take(
                    k as int,
                ).push(route.follower_peers@[k as int]));
                lemma_has_peer_id_push(
                    route.follower_peers@.take(k as int),
                    route.follower_peers@[k as int],
                );
            }
            k = k + 1;
        }
        proof {
            assert(rv.subrange(0, i + 1) =~= rv.subrange(0, i as int).push(rv[i as int]));
            lemma_route_peer_ids_push(rv.subrange(0, i as int), rv[i as int]);
            assert(rv[i as int] == route@);
            let fp = route.follower_peers@;
            assert(fp.take(fp.len() as int) =~= fp);
            assert(forall|m: int|
                0 <= m < fp.len() ==> (#[trigger] fp[m])@ == route@.follower_peers[m]);
            assert forall|d: u64| #[trigger]
                has_peer_id(r@, d) <==> route_peer_ids(rv.subrange(0, i + 1)).contains(d) by {
                if has_peer_id(fp, d) {
                    let m = choose|m: int| 0 <= m < fp.len() && (#[trigger] fp[m]).id == d;
                    assert(route@.follower_peers[m].id == d);
                    assert(one_route_peer_ids(route@).contains(d));
                }
                if one_route_peer_ids(route@).contains(d) {
                    match route@.leader_peer {
                        Some(lp) => {
                            if d == lp.id {
                                assert(has_peer_id(r_after_leader, d)) by {
                                    assert(leader_id == Some(lp.id));
                                }
                            }
                        },
                        None => {},
                    }
                    if exists|m: int|
                        0 <= m < route@.follower_peers.len()
                            && (#[trigger] route@.follower_peers[m]).id == d {
                        let m = choose|m: int|
                            0 <= m < route@.follower_peers.len()
                                && (#[trigger] route@.follower_peers[m]).id == d;
                        assert(fp[m].id == d);
                        assert(has_peer_id(fp, d));
                    }
                }
            }
        }
        i = i + 1;
    }
    proof {
        assert(rv.subrange(0, rv.len() as int) =~= rv);
    }
    r
}

/// The peer ids (leaders and followers) named by a route set.
pub open spec fn route_peer_ids(routes: Seq<RegionRouteV>) -> Set<u64>
    decreases routes.len(),
{
    if routes.len() == 0 {
        Set::empty()
    } else {
        route_peer_ids(routes.drop_last()) + one_route_peer_ids(routes.last())
    }
}

/// The peer ids of one route.
pub open spec fn one_route_peer_ids(r: RegionRouteV) -> Set<u64> {
    let leaders: Set<u64> = match r.leader_peer {
        Some(p) => Set::empty().insert(p.id),
        None => Set::empty(),
    };
    leaders + Set::new(|d: u64| exists|m: int| 0 <= m < r.follower_peers.len() && (#[trigger] r.follower_peers[m]).id == d)
}

proof fn lemma_route_peer_ids_push(routes: Seq<RegionRouteV>, r: RegionRouteV)
    ensures
        route_peer_ids(routes.push(r)) == route_peer_ids(routes) + one_route_peer_ids(r),
{
    assert(routes.push(r).drop_last() =~= routes);
    assert(routes.push(r).last() == r);
}

/// Whether some peer in the vector has the given id.
fn contains_peer_id(v: &Vec<Peer>, id: u64) -> (r: bool)
    ensures
        r == has_peer_id(v@, id),
{
    let mut i: usize = 0;
    while i < v.len()
        invariant
            i <= v@.len(),
            forall|a: int| 0 <= a < i ==> (#[trigger] v@[a]).id != id,
        decreases v@.len() - i,
    {
        if v[i].id == id {
            return true;
        }
        i = i + 1;
    }
    false
}

} // verus!
