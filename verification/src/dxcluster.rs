//! The link to a DX cluster: its nodes, the spots that it sends, and when to try the next node.
use crate::reading::{port_of, read_port};
use crate::spot::{PotaSpot, SpotText};
use crate::text::{chars_of, pieces, split_at_char, string_of, texts, trim, trimmed};
use vstd::prelude::*;

verus! {

/// The port of a node that names none, or none that is one.
pub const DEFAULT_PORT: u16 = 23;

/// Where the last `c` stands; -1 where there is none.
pub open spec fn last_index_of(s: Seq<char>, c: char) -> int
    decreases s.len(),
{
    if s.len() == 0 {
        -1
    } else if s.last() == c {
        s.len() - 1
    } else {
        last_index_of(s.drop_last(), c)
    }
}

/// The host and the port of a node, with the last colon between them.
pub open spec fn node_of(t: Seq<char>) -> (Seq<char>, u16) {
    let i = last_index_of(t, ':');
    if i < 0 {
        (t, DEFAULT_PORT)
    } else {
        (
            t.take(i),
            match port_of(t.skip(i + 1)) {
                Some(p) => p,
                None => DEFAULT_PORT,
            },
        )
    }
}

/// The nodes that lines name, the blank ones left out.
pub open spec fn nodes_in(lines: Seq<Seq<char>>) -> Seq<(Seq<char>, u16)>
    decreases lines.len(),
{
    if lines.len() == 0 {
        Seq::empty()
    } else {
        let front = nodes_in(lines.drop_last());
        let t = trim(lines.last());
        if t.len() == 0 {
            front
        } else {
            front.push(node_of(t))
        }
    }
}

/// The contents of a list of nodes.
pub open spec fn node_texts(v: Seq<(String, u16)>) -> Seq<(Seq<char>, u16)> {
    Seq::new(v.len(), |i: int| (v[i].0@, v[i].1))
}

fn read_node(t: &str) -> (r: (String, u16))
    ensures
        (r.0@, r.1) == node_of(t@),
{
    let v = chars_of(t);
    let mut i: usize = v.len();
    proof {
        assert(v@.take(i as int) =~= v@);
    }
    while i > 0 && v[i - 1] != ':'
        invariant
            i <= v@.len(),
            last_index_of(v@, ':') == last_index_of(v@.take(i as int), ':'),
        decreases i,
    {
        proof {
            assert(v@.take(i as int).drop_last() =~= v@.take(i - 1));
        }
        i -= 1;
    }
    if i == 0 {
        return (t.to_owned(), DEFAULT_PORT);
    }
    proof {
        assert(v@.take(i as int).last() == ':');
    }
    let host = string_of(&v, 0, i - 1);
    let port = string_of(&v, i, v.len());
    proof {
        assert(host@ =~= t@.take(i - 1));
        assert(port@ =~= t@.skip(i as int));
    }
    match read_port(port.as_str()) {
        Some(p) => (host, p),
        None => (host, DEFAULT_PORT),
    }
}

/// The nodes of a list with one `host:port` on each line.
pub fn parse_nodes(list: &str) -> (r: Vec<(String, u16)>)
    ensures
        node_texts(r@) == nodes_in(pieces(list@, '\n')),
{
    let lines = split_at_char(list, '\n');
    let mut r: Vec<(String, u16)> = Vec::new();
    let mut i: usize = 0;
    let ghost all = texts(lines@);
    proof {
        assert(node_texts(r@) =~= Seq::<(Seq<char>, u16)>::empty());
    }
    while i < lines.len()
        invariant
            i <= lines@.len(),
            all == texts(lines@),
            node_texts(r@) == nodes_in(all.take(i as int)),
        decreases lines@.len() - i,
    {
        proof {
            let next = all.take(i + 1);
            assert(next.drop_last() =~= all.take(i as int));
            assert(next.last() == lines@[i as int]@);
        }
        let t = trimmed(lines[i].as_str());
        if !t.is_empty() {
            let ghost before = r@;
            let node = read_node(t);
            r.push(node);
            proof {
                assert(node_texts(r@) =~= node_texts(before).push(node_of(t@)));
            }
        }
        i += 1;
    }
    proof {
        assert(all.take(all.len() as int) =~= all);
    }
    r
}

/// How long a spot of the cluster is kept: 15 minutes, in nanoseconds.
pub const CACHE_NANOS: u64 = 900_000_000_000;

/// How long after the login the first spots are collected: 4 seconds, in nanoseconds.
pub const BATCH_NANOS: u64 = 4_000_000_000;

/// A spot of the cluster, and when it came in, in nanoseconds since a fixed start.
pub struct DxCachedSpot {
    pub spot: PotaSpot,
    pub received_at: u64,
}

/// What is known of the cluster.
pub struct DxClusterState {
    pub cached_spots: Vec<DxCachedSpot>,
    pub connected: bool,
    pub status: String,
    pub needs_refresh: bool,
}

/// The spot came in less than 15 minutes ago.
pub open spec fn is_fresh(s: DxCachedSpot, now: u64) -> bool {
    s.received_at + CACHE_NANOS > now
}

/// The spots that came in less than 15 minutes ago, in their order.
pub open spec fn fresh(spots: Seq<DxCachedSpot>, now: u64) -> Seq<DxCachedSpot> {
    spots.filter(|s: DxCachedSpot| is_fresh(s, now))
}

/// The contents of cached spots.
pub open spec fn cached_texts(v: Seq<DxCachedSpot>) -> Seq<SpotText> {
    Seq::new(v.len(), |i: int| v[i].spot@)
}

impl DxClusterState {
    pub fn new() -> (r: DxClusterState)
        ensures
            r.cached_spots@.len() == 0,
            !r.connected,
            r.status@ == "Not started"@,
            !r.needs_refresh,
    {
        DxClusterState {
            cached_spots: Vec::new(),
            connected: false,
            status: "Not started".to_owned(),
            needs_refresh: false,
        }
    }

    /// Whether a link can be started on a list of nodes; where there are none, the status says so.
    pub fn can_start(&mut self, nodes: &Vec<(String, u16)>) -> (r: bool)
        ensures
            r == (nodes@.len() > 0),
            final(self).cached_spots == old(self).cached_spots,
            final(self).connected == old(self).connected,
            final(self).needs_refresh == old(self).needs_refresh,
            final(self).status@ == if r {
                old(self).status@
            } else {
                "No nodes configured"@
            },
    {
        if nodes.len() == 0 {
            self.status = "No nodes configured".to_owned();
            return false;
        }
        true
    }

    /// Drops the spots that came in 15 minutes ago or earlier.
    pub fn prune(&mut self, now: u64)
        ensures
            final(self).cached_spots@ == fresh(old(self).cached_spots@, now),
            final(self).connected == old(self).connected,
            final(self).status == old(self).status,
            final(self).needs_refresh == old(self).needs_refresh,
    {
        let ghost all = self.cached_spots@;
        let ghost keep = |s: DxCachedSpot| is_fresh(s, now);
        let ghost mut done: int = 0;
        let mut i: usize = 0;
        proof {
            reveal(Seq::filter);
            assert(all.take(0).filter(keep) =~= Seq::empty());
            assert(self.cached_spots@ =~= all.take(0).filter(keep) + all.skip(0));
        }
        while i < self.cached_spots.len()
            invariant
                keep == (|s: DxCachedSpot| is_fresh(s, now)),
                0 <= done <= all.len(),
                self.cached_spots@ == all.take(done).filter(keep) + all.skip(done),
                i == all.take(done).filter(keep).len(),
                self.connected == old(self).connected,
                self.status == old(self).status,
                self.needs_refresh == old(self).needs_refresh,
            decreases all.len() - done,
        {
            let ghost front = all.take(done).filter(keep);
            proof {
                reveal(Seq::filter);
                assert(self.cached_spots@[i as int] == all[done]);
                let next = all.take(done + 1);
                assert(next.drop_last() =~= all.take(done));
                assert(next.last() == all[done]);
            }
            let at: u64 = self.cached_spots[i].received_at;
            if now < CACHE_NANOS || at > now - CACHE_NANOS {
                proof {
                    assert(keep(all[done]));
                    assert(front.push(all[done]) + all.skip(done + 1) =~= front + all.skip(done));
                }
                i += 1;
            } else {
                proof {
                    assert(!keep(all[done]));
                    assert((front + all.skip(done)).remove(i as int) =~= front + all.skip(done + 1));
                }
                let _ = self.cached_spots.remove(i);
            }
            proof {
                done = done + 1;
            }
        }
        proof {
            assert(done == all.len());
            assert(all.take(done) =~= all);
            assert(self.cached_spots@ =~= all.filter(keep));
        }
    }

    /// The spots of the last 15 minutes; the older ones are dropped.
    pub fn get_dx_cache_spots(&mut self, now: u64) -> (r: Vec<PotaSpot>)
        ensures
            final(self).cached_spots@ == fresh(old(self).cached_spots@, now),
            final(self).connected == old(self).connected,
            final(self).status == old(self).status,
            final(self).needs_refresh == old(self).needs_refresh,
            crate::spot::spot_texts(r@) == cached_texts(fresh(old(self).cached_spots@, now)),
    {
        self.prune(now);
        let mut r: Vec<PotaSpot> = Vec::new();
        let mut i: usize = 0;
        while i < self.cached_spots.len()
            invariant
                i <= self.cached_spots@.len(),
                r@.len() == i,
                forall|j: int| 0 <= j < i ==> (#[trigger] r@[j])@ == self.cached_spots@[j].spot@,
            decreases self.cached_spots@.len() - i,
        {
            r.push(self.cached_spots[i].spot.clone());
            i += 1;
        }
        proof {
            assert(crate::spot::spot_texts(r@) =~= cached_texts(self.cached_spots@));
        }
        r
    }
}

/// Dropping the old spots twice is the same as dropping them once, at the later time.
pub proof fn law_prune_twice(spots: Seq<DxCachedSpot>, first: u64, second: u64)
    requires
        first <= second,
    ensures
        fresh(fresh(spots, first), second) == fresh(spots, second),
    decreases spots.len(),
{
    reveal(Seq::filter);
    let p = |s: DxCachedSpot| is_fresh(s, first);
    let q = |s: DxCachedSpot| is_fresh(s, second);
    if spots.len() > 0 {
        law_prune_twice(spots.drop_last(), first, second);
        let inner = spots.drop_last().filter(p);
        if p(spots.last()) {
            assert(spots.filter(p) == inner.push(spots.last()));
            assert(inner.push(spots.last()).drop_last() =~= inner);
        }
    } else {
        assert(fresh(spots, first) =~= Seq::empty());
    }
}

/// What is kept is exactly what came in less than 15 minutes ago.
pub proof fn law_prune_keeps_fresh(spots: Seq<DxCachedSpot>, now: u64, s: DxCachedSpot)
    ensures
        fresh(spots, now).contains(s) <==> spots.contains(s) && is_fresh(s, now),
{
    let keep = |s: DxCachedSpot| is_fresh(s, now);
    broadcast use vstd::seq_lib::group_filter_ensures;

    let kept = spots.filter(keep);
    if kept.contains(s) {
        let i = choose|i: int| 0 <= i < kept.len() && kept[i] == s;
        assert(keep(kept[i]));
        spots.lemma_filter_contains_rev(keep, s);
    }
    if spots.contains(s) && is_fresh(s, now) {
        let i = choose|i: int| 0 <= i < spots.len() && spots[i] == s;
        assert(keep(spots[i]));
        assert(kept.contains(spots[i]));
    }
}

} // verus!
