//! Talking to a DX cluster, node after node.
use crate::digits::{decimal, decimal_text};
use crate::dxcluster::{fresh, node_texts, DxCachedSpot, DxClusterState, BATCH_NANOS};
use crate::dxline::{is_sound_line, line_spot, parse_dx_spot_line, sound_line};
use crate::spot::SpotText;
use crate::text::{
    law_pieces_in_parts, lemma_pieces_some, pieces, split_at_char, strip_end, stripped_end, texts,
    trim, trimmed,
};
use vstd::prelude::*;

verus! {

/// The link to the node that is tried or connected.
pub struct DxLink {
    pub nodes: Vec<(String, u16)>,
    pub callsign: String,
    /// Which node it is.
    pub node: usize,
    /// The start of a line that has not ended yet.
    pub line: String,
    /// The first spots after the login have been shown.
    pub initial_done: bool,
    /// When the login was done, in nanoseconds since a fixed start.
    pub opened_at: u64,
}

/// A node's host and port with a colon between them.
pub open spec fn address_text(node: (Seq<char>, u16)) -> Seq<char> {
    node.0 + ":"@ + decimal(node.1 as nat)
}

pub open spec fn connecting_text(address: Seq<char>, number: nat, count: nat) -> Seq<char> {
    "Connecting to "@ + address + " ("@ + decimal(number) + "/"@ + decimal(count) + ")..."@
}

/// The spots that lines hold, up to the first line that cannot be read, and whether there is one.
pub open spec fn spots_in(lines: Seq<Seq<char>>) -> (Seq<SpotText>, bool)
    decreases lines.len(),
{
    if lines.len() == 0 {
        (Seq::empty(), false)
    } else {
        let (spots, broken) = spots_in(lines.drop_last());
        let line = strip_end(lines.last(), '\r');
        if broken {
            (spots, true)
        } else if !sound_line(line) {
            (spots, true)
        } else {
            match line_spot(line) {
                Some(s) => (spots.push(s), false),
                None => (spots, false),
            }
        }
    }
}

/// Contents and arrival of cached spots.
pub open spec fn cached(v: Seq<DxCachedSpot>) -> Seq<(SpotText, u64)> {
    Seq::new(v.len(), |i: int| (v[i].spot@, v[i].received_at))
}

/// The cached spots with the new ones added.
pub open spec fn with_new(before: Seq<(SpotText, u64)>, spots: Seq<SpotText>, now: u64) -> Seq<(SpotText, u64)> {
    before + Seq::new(spots.len(), |i: int| (spots[i], now))
}

/// Those that came in less than 15 minutes ago.
pub open spec fn fresh_only(spots: Seq<(SpotText, u64)>, now: u64) -> Seq<(SpotText, u64)> {
    spots.filter(|s: (SpotText, u64)| s.1 + crate::dxcluster::CACHE_NANOS > now)
}

proof fn lemma_fresh_texts(v: Seq<DxCachedSpot>, now: u64)
    ensures
        cached(fresh(v, now)) == fresh_only(cached(v), now),
    decreases v.len(),
{
    reveal(Seq::filter);
    if v.len() == 0 {
        assert(cached(fresh(v, now)) =~= fresh_only(cached(v), now));
    } else {
        let front = v.drop_last();
        lemma_fresh_texts(front, now);
        assert(cached(v).drop_last() =~= cached(front));
        assert(cached(v).last() == (v.last().spot@, v.last().received_at));
        let keep = |s: DxCachedSpot| crate::dxcluster::is_fresh(s, now);
        if keep(v.last()) {
            assert(cached(fresh(front, now).push(v.last())) =~= cached(fresh(front, now)).push(
                (v.last().spot@, v.last().received_at),
            ));
        }
    }
}

fn text3(a: &str, b: &str, c: &str) -> (r: String)
    ensures
        r@ == a@ + b@ + c@,
{
    let mut r = a.to_owned();
    r.append(b);
    r.append(c);
    r
}

impl DxLink {
    pub open spec fn wf(&self) -> bool {
        self.node < self.nodes@.len()
    }

    /// The address of the node.
    pub open spec fn address(&self) -> Seq<char> {
        address_text(node_texts(self.nodes@)[self.node as int])
    }

    /// The nodes and the call stay.
    pub open spec fn same_setup(&self, other: &DxLink) -> bool {
        self.nodes == other.nodes && self.callsign == other.callsign
    }

    /// What was heard of the node stays.
    pub open spec fn same_hearing(&self, other: &DxLink) -> bool {
        self.line == other.line && self.initial_done == other.initial_done && self.opened_at == other.opened_at
    }

    /// The node after this one; after the last comes the first.
    pub open spec fn next_node(&self) -> int {
        (self.node as int + 1) % (self.nodes@.len() as int)
    }

    /// Starts on a list of nodes. Without a call or without a node there is no link, and the status
    /// says so.
    pub fn start(nodes: Vec<(String, u16)>, callsign: String, state: &mut DxClusterState) -> (r: Option<DxLink>)
        ensures
            final(state).cached_spots == old(state).cached_spots,
            final(state).needs_refresh == old(state).needs_refresh,
            match r {
                Some(link) => {
                    &&& trim(callsign@).len() > 0
                    &&& link.wf()
                    &&& link.nodes == nodes
                    &&& link.callsign == callsign
                    &&& link.node == 0
                    &&& link.line@ == Seq::<char>::empty()
                    &&& !link.initial_done
                    &&& link.opened_at == 0
                    &&& final(state).connected == old(state).connected
                    &&& final(state).status == old(state).status
                },
                None => {
                    &&& trim(callsign@).len() == 0 || nodes@.len() == 0
                    &&& !final(state).connected
                    &&& final(state).status@ == if trim(callsign@).len() == 0 {
                        "No callsign configured"@
                    } else {
                        "No nodes configured"@
                    }
                },
            },
    {
        if trimmed(callsign.as_str()).is_empty() {
            state.status = "No callsign configured".to_owned();
            state.connected = false;
            return None;
        }
        if nodes.len() == 0 {
            state.status = "No nodes configured".to_owned();
            state.connected = false;
            return None;
        }
        let line = String::new();
        proof {
            assert(line@ =~= Seq::<char>::empty());
        }
        Some(DxLink { nodes, callsign, node: 0, line, initial_done: false, opened_at: 0 })
    }

    fn address_of(&self) -> (r: String)
        requires
            self.wf(),
        ensures
            r@ == self.address(),
    {
        let mut r = self.nodes[self.node].0.clone();
        r.append(":");
        let port = decimal_text(self.nodes[self.node].1 as u64);
        r.append(port.as_str());
        r
    }

    fn advance(&mut self)
        requires
            old(self).wf(),
        ensures
            final(self).wf(),
            final(self).same_setup(old(self)),
            final(self).node == old(self).next_node(),
            final(self).same_hearing(old(self)),
    {
        let n = self.nodes.len();
        if self.node + 1 == n {
            proof {
                vstd::arithmetic::div_mod::lemma_mod_self_0(n as int);
            }
            self.node = 0;
        } else {
            proof {
                vstd::arithmetic::div_mod::lemma_small_mod((self.node + 1) as nat, n as nat);
            }
            self.node = self.node + 1;
        }
    }

    /// Before a node is tried. Gives the address to connect to, or `None` where the link was told to
    /// stop.
    pub fn begin(&self, state: &mut DxClusterState, running: bool) -> (r: Option<String>)
        requires
            self.wf(),
        ensures
            final(state).cached_spots == old(state).cached_spots,
            final(state).needs_refresh == old(state).needs_refresh,
            !final(state).connected,
            match r {
                Some(address) => running && address@ == self.address() && final(state).status@ == connecting_text(
                    self.address(),
                    self.node as nat + 1,
                    self.nodes@.len(),
                ),
                None => !running && final(state).status@ == "Stopped"@,
            },
    {
        state.connected = false;
        if !running {
            state.status = "Stopped".to_owned();
            return None;
        }
        let address = self.address_of();
        let mut status = text3("Connecting to ", address.as_str(), " (");
        let n: usize = self.nodes.len();
        let number = decimal_text((self.node + 1) as u64);
        let count = decimal_text(n as u64);
        status.append(number.as_str());
        status.append("/");
        status.append(count.as_str());
        status.append(")...");
        state.status = status;
        Some(address)
    }

    /// The address could not be resolved: the next node is tried.
    pub fn not_resolved(&mut self, state: &mut DxClusterState, error: &str)
        requires
            old(self).wf(),
        ensures
            final(self).wf(),
            final(self).same_setup(old(self)),
            final(self).same_hearing(old(self)),
            final(self).node == old(self).next_node(),
            final(state).cached_spots == old(state).cached_spots,
            final(state).needs_refresh == old(state).needs_refresh,
            final(state).connected == old(state).connected,
            final(state).status@ == "DNS failed "@ + old(self).address() + ": "@ + error@ + " - trying next node..."@,
    {
        let address = self.address_of();
        let mut status = text3("DNS failed ", address.as_str(), ": ");
        status.append(error);
        status.append(" - trying next node...");
        state.status = status;
        self.advance();
    }

    /// One address of the node did not answer.
    pub fn attempt_failed(&self, state: &mut DxClusterState, error: &str)
        requires
            self.wf(),
        ensures
            final(state).cached_spots == old(state).cached_spots,
            final(state).needs_refresh == old(state).needs_refresh,
            final(state).connected == old(state).connected,
            final(state).status@ == "Failed "@ + self.address() + ": "@ + error@ + " - trying next..."@,
    {
        let address = self.address_of();
        let mut status = text3("Failed ", address.as_str(), ": ");
        status.append(error);
        status.append(" - trying next...");
        state.status = status;
    }

    /// No address of the node answered: the next node is tried.
    pub fn not_connected(&mut self, state: &mut DxClusterState)
        requires
            old(self).wf(),
        ensures
            final(self).wf(),
            final(self).same_setup(old(self)),
            final(self).same_hearing(old(self)),
            final(self).node == old(self).next_node(),
            final(state).cached_spots == old(state).cached_spots,
            final(state).needs_refresh == old(state).needs_refresh,
            final(state).connected == old(state).connected,
            final(state).status@ == "Failed "@ + old(self).address() + " - moving to next node..."@,
    {
        let address = self.address_of();
        state.status = text3("Failed ", address.as_str(), " - moving to next node...");
        self.advance();
    }

    /// What is sent to log in.
    pub fn login(&self) -> (r: String)
        ensures
            r@ == trim(self.callsign@) + "\r\n"@,
    {
        let mut r = trimmed(self.callsign.as_str()).to_owned();
        r.append("\r\n");
        r
    }

    /// The login could not be sent: the next node is tried.
    pub fn login_failed(&mut self, state: &mut DxClusterState)
        requires
            old(self).wf(),
        ensures
            final(self).wf(),
            final(self).same_setup(old(self)),
            final(self).same_hearing(old(self)),
            final(self).node == old(self).next_node(),
            final(state).cached_spots == old(state).cached_spots,
            final(state).needs_refresh == old(state).needs_refresh,
            final(state).connected == old(state).connected,
            final(state).status@ == "Login failed on "@ + old(self).address() + " - trying next..."@,
    {
        let address = self.address_of();
        state.status = text3("Login failed on ", address.as_str(), " - trying next...");
        self.advance();
    }

    /// What is sent after the login, for the spots of before.
    pub fn request(&self) -> (r: &'static str)
        ensures
            r@ == "sh/dx 50\r\n"@,
    {
        "sh/dx 50\r\n"
    }

    /// The login and the request were sent.
    pub fn logged_in(&mut self, state: &mut DxClusterState, now: u64)
        requires
            old(self).wf(),
        ensures
            final(self).wf(),
            final(self).same_setup(old(self)),
            final(self).node == old(self).node,
            final(self).line@ == Seq::<char>::empty(),
            !final(self).initial_done,
            final(self).opened_at == now,
            final(state).cached_spots == old(state).cached_spots,
            final(state).needs_refresh == old(state).needs_refresh,
            final(state).connected,
            final(state).status@ == "Connected to "@ + old(self).address() + " (fetching recent spots)"@,
    {
        let address = self.address_of();
        state.connected = true;
        state.status = text3("Connected to ", address.as_str(), " (fetching recent spots)");
        self.line = String::new();
        self.initial_done = false;
        self.opened_at = now;
        proof {
            assert(self.line@ =~= Seq::<char>::empty());
        }
    }

    /// The first spots after the login have had their time.
    pub open spec fn batch_over(&self, now: u64) -> bool {
        !self.initial_done && now > self.opened_at + BATCH_NANOS
    }

    /// Text came. Its complete lines are read, and the spots in them are kept; what has not ended
    /// is kept for the text that follows. When the first spots have had their time, they are to be
    /// shown. Gives `false` where a line cannot be read: the lines after it are lost.
    pub fn received(&mut self, state: &mut DxClusterState, text: &str, now: u64) -> (r: bool)
        requires
            old(self).wf(),
        ensures
            final(self).wf(),
            final(self).same_setup(old(self)),
            final(self).node == old(self).node,
            final(self).opened_at == old(self).opened_at,
            ({
                let parts = pieces(old(self).line@ + text@, '\n');
                let (spots, broken) = spots_in(parts.drop_last());
                let shown = !broken && old(self).batch_over(now);
                &&& final(self).line@ == parts.last()
                &&& r == !broken
                &&& cached(final(state).cached_spots@) == if spots.len() == 0 {
                    cached(old(state).cached_spots@)
                } else {
                    fresh_only(with_new(cached(old(state).cached_spots@), spots, now), now)
                }
                &&& final(self).initial_done == (old(self).initial_done || shown)
                &&& final(state).needs_refresh == (old(state).needs_refresh || shown)
                &&& final(state).connected == old(state).connected
                &&& final(state).status@ == if shown {
                    "Connected to "@ + old(self).address()
                } else {
                    old(state).status@
                }
            }),
    {
        let mut buffer = self.line.clone();
        buffer.append(text);
        let mut lines = split_at_char(buffer.as_str(), '\n');
        let ghost parts = pieces(buffer@, '\n');
        proof {
            lemma_pieces_some(buffer@, '\n');
        }
        let n: usize = lines.len() - 1;
        proof {
            assert(parts.last() == lines@[n as int]@);
        }
        self.line = lines[n].clone();
        let ghost all = parts.drop_last();
        let ghost before = cached(state.cached_spots@);
        let mut i: usize = 0;
        let mut added = false;
        let mut broken = false;
        proof {
            assert(all.take(0).len() == 0);
            assert(with_new(before, Seq::empty(), now) =~= before);
        }
        while i < n && !broken
            invariant
                i <= n,
                n + 1 == lines@.len(),
                texts(lines@) == parts,
                all == parts.drop_last(),
                !broken ==> spots_in(all.take(i as int)).1 == false,
                broken ==> spots_in(all).1 && spots_in(all).0 == spots_in(all.take(i as int)).0,
                added == (spots_in(all.take(i as int)).0.len() > 0),
                cached(state.cached_spots@) == with_new(before, spots_in(all.take(i as int)).0, now),
                state.connected == old(state).connected,
                state.status == old(state).status,
                state.needs_refresh == old(state).needs_refresh,
            decreases n - i, (if broken { 0int } else { 1int }),
        {
            let line = stripped_end(lines[i].as_str(), '\r');
            proof {
                let next = all.take(i + 1);
                assert(next.drop_last() =~= all.take(i as int));
                assert(next.last() == lines@[i as int]@) by {
                    assert(all[i as int] == parts[i as int]);
                    assert(parts[i as int] == texts(lines@)[i as int]);
                }
            }
            if !is_sound_line(line) {
                proof {
                    lemma_broken_stays(all, i as int);
                }
                broken = true;
            } else {
                let ghost so_far = spots_in(all.take(i as int)).0;
                if let Some(spot) = parse_dx_spot_line(line) {
                    let ghost v = state.cached_spots@;
                    state.cached_spots.push(DxCachedSpot { spot, received_at: now });
                    proof {
                        assert(cached(state.cached_spots@) =~= cached(v).push((spot@, now)));
                        assert(with_new(before, so_far.push(spot@), now) =~= with_new(before, so_far, now).push(
                            (spot@, now),
                        ));
                    }
                    added = true;
                }
                i += 1;
            }
        }
        proof {
            if !broken {
                assert(all.take(n as int) =~= all);
            }
        }
        if added {
            proof {
                lemma_fresh_texts(state.cached_spots@, now);
            }
            state.prune(now);
        } else {
            proof {
                assert(with_new(before, spots_in(all).0, now) =~= before);
            }
        }
        if broken {
            return false;
        }
        if !self.initial_done && now > BATCH_NANOS && now - BATCH_NANOS > self.opened_at {
            self.initial_done = true;
            state.needs_refresh = true;
            let address = self.address_of();
            let mut status = "Connected to ".to_owned();
            status.append(address.as_str());
            state.status = status;
        }
        true
    }

    /// The node closed the link: the next one is tried, unless the link was told to stop.
    pub fn closed(&mut self, state: &mut DxClusterState, running: bool)
        requires
            old(self).wf(),
        ensures
            final(self).wf(),
            final(self).same_setup(old(self)),
            final(self).same_hearing(old(self)),
            final(self).node == if running {
                old(self).next_node()
            } else {
                old(self).node as int
            },
            final(state).cached_spots == old(state).cached_spots,
            final(state).needs_refresh == old(state).needs_refresh,
            !final(state).connected,
            final(state).status@ == "Disconnected from "@ + old(self).address() + " - trying next node..."@,
    {
        let address = self.address_of();
        state.connected = false;
        state.status = text3("Disconnected from ", address.as_str(), " - trying next node...");
        if running {
            self.advance();
        }
    }

    /// Reading failed: the next node is tried, unless the link was told to stop.
    pub fn read_failed(&mut self, state: &mut DxClusterState, error: &str, running: bool)
        requires
            old(self).wf(),
        ensures
            final(self).wf(),
            final(self).same_setup(old(self)),
            final(self).same_hearing(old(self)),
            final(self).node == if running {
                old(self).next_node()
            } else {
                old(self).node as int
            },
            final(state).cached_spots == old(state).cached_spots,
            final(state).needs_refresh == old(state).needs_refresh,
            !final(state).connected,
            final(state).status@ == "Connection lost to "@ + old(self).address() + ": "@ + error@
                + " - trying next node..."@,
    {
        let address = self.address_of();
        state.connected = false;
        let mut status = text3("Connection lost to ", address.as_str(), ": ");
        status.append(error);
        status.append(" - trying next node...");
        state.status = status;
        if running {
            self.advance();
        }
    }
}

proof fn lemma_broken_stays(lines: Seq<Seq<char>>, i: int)
    requires
        0 <= i < lines.len(),
        !spots_in(lines.take(i)).1,
        !sound_line(strip_end(lines[i], '\r')),
    ensures
        spots_in(lines).1,
        spots_in(lines).0 == spots_in(lines.take(i)).0,
    decreases lines.len(),
{
    if i == lines.len() - 1 {
        assert(lines.drop_last() =~= lines.take(i));
    } else {
        let front = lines.drop_last();
        assert(front.take(i) =~= lines.take(i));
        lemma_broken_stays(front, i);
    }
}

/// The index of the node after `k` failures.
pub open spec fn node_after(node: int, count: int, k: nat) -> int
    decreases k,
{
    if k == 0 {
        node
    } else {
        (node_after(node, count, (k - 1) as nat) + 1) % count
    }
}

/// After as many failures as there are nodes, the first node is tried again; until then each one
/// is another.
pub proof fn law_nodes_come_round(node: int, count: int, k: nat)
    requires
        0 <= node < count,
    ensures
        node_after(node, count, k) == (node + k) % count,
        node_after(node, count, count as nat) == node,
        0 < k < count ==> node_after(node, count, k) != node,
{
    lemma_node_after(node, count, k);
    lemma_node_after(node, count, count as nat);
    vstd::arithmetic::div_mod::lemma_mod_add_multiples_vanish(node, count);
    vstd::arithmetic::div_mod::lemma_small_mod(node as nat, count as nat);
    if 0 < k < count {
        if node + k < count {
            vstd::arithmetic::div_mod::lemma_small_mod((node + k) as nat, count as nat);
        } else {
            vstd::arithmetic::div_mod::lemma_mod_add_multiples_vanish(node + k - count, count);
            vstd::arithmetic::div_mod::lemma_small_mod((node + k - count) as nat, count as nat);
        }
    }
}

proof fn lemma_node_after(node: int, count: int, k: nat)
    requires
        0 <= node < count,
    ensures
        node_after(node, count, k) == (node + k) % count,
    decreases k,
{
    if k == 0 {
        vstd::arithmetic::div_mod::lemma_small_mod(node as nat, count as nat);
    } else {
        lemma_node_after(node, count, (k - 1) as nat);
        vstd::arithmetic::div_mod::lemma_add_mod_noop(node + k - 1, 1, count);
        if count > 1 {
            vstd::arithmetic::div_mod::lemma_small_mod(1, count as nat);
        } else {
            vstd::arithmetic::div_mod::lemma_mod_self_0(count);
        }
    }
}

/// However the text of a node is cut up on its way, the same lines are read, in the same order: those
/// of the first part, and then those of its rest with the second part behind it.
pub proof fn law_lines_in_parts(line: Seq<char>, first: Seq<char>, second: Seq<char>)
    ensures
        ({
            let one = pieces(line + first, '\n');
            let two = pieces(one.last() + second, '\n');
            let whole = pieces(line + (first + second), '\n');
            &&& whole.drop_last() == one.drop_last() + two.drop_last()
            &&& whole.last() == two.last()
        }),
{
    let one = pieces(line + first, '\n');
    let two = pieces(one.last() + second, '\n');
    law_pieces_in_parts(line + first, second, '\n');
    assert((line + first) + second =~= line + (first + second));
    lemma_pieces_some(one.last() + second, '\n');
    assert((one.drop_last() + two).drop_last() =~= one.drop_last() + two.drop_last());
}

} // verus!
