//! The tracker: two peer tables, one for ping round trips and one for
//! per-byte transmission times, sharing one window size.

use vstd::prelude::*;
use chashmap::CHashMap;
use crate::buffer::{lossy_push, pushed_all, PushLossy};
use crate::peer_map::{
    is_listing_of,
    no_entries,
    table_contains,
    table_entries,
    table_insert_new,
    table_len,
    table_new,
    table_clone,
    table_into_entries,
    table_swap_window,
};
use crate::report::{render_report, report_text};

verus! {

/// Why a sample was refused.
#[derive(Debug, Clone, Copy, PartialEq, Eq)]
pub enum StatsError {
    /// A transmission of zero bytes has no time per byte.
    NoBytes,
}

/// The window a peer has in `entries`; a peer that was never seen has an
/// empty one.
pub open spec fn window_of(entries: Map<Seq<char>, Seq<u64>>, peer: Seq<char>) -> Seq<u64> {
    if entries.contains_key(peer) {
        entries[peer]
    } else {
        Seq::empty()
    }
}

/// The entries after one sample of `peer` is recorded: the peer's window
/// takes the sample, every other entry stays.
pub open spec fn recorded(
    entries: Map<Seq<char>, Seq<u64>>,
    peer: Seq<char>,
    sample: u64,
    capacity: nat,
) -> Map<Seq<char>, Seq<u64>> {
    entries.insert(peer, lossy_push(window_of(entries, peer), sample, capacity))
}

/// The entries after a run of samples is recorded into an empty table, in
/// order.
pub open spec fn recorded_all(events: Seq<(Seq<char>, u64)>, capacity: nat) -> Map<Seq<char>, Seq<u64>>
    decreases events.len(),
{
    if events.len() == 0 {
        no_entries()
    } else {
        recorded(recorded_all(events.drop_last(), capacity), events.last().0, events.last().1, capacity)
    }
}

/// The samples that `events` holds for `peer`, in order.
pub open spec fn samples_for(events: Seq<(Seq<char>, u64)>, peer: Seq<char>) -> Seq<u64>
    decreases events.len(),
{
    if events.len() == 0 {
        Seq::empty()
    } else if events.last().0 == peer {
        samples_for(events.drop_last(), peer).push(events.last().1)
    } else {
        samples_for(events.drop_last(), peer)
    }
}

/// However the samples of different peers interleave, no sample is lost and
/// none leaks into another window: a peer's window is what its own samples,
/// pushed in order, leave behind.
pub proof fn lemma_window_holds_own_samples(
    events: Seq<(Seq<char>, u64)>,
    peer: Seq<char>,
    capacity: nat,
)
    ensures
        window_of(recorded_all(events, capacity), peer) == pushed_all(
            samples_for(events, peer),
            capacity,
        ),
        recorded_all(events, capacity).contains_key(peer) <==> exists|i: int|
            0 <= i < events.len() && #[trigger] events[i].0 == peer,
    decreases events.len(),
{
    if events.len() > 0 {
        let earlier = events.drop_last();
        let last = events.last();
        lemma_window_holds_own_samples(earlier, peer, capacity);
        if last.0 == peer {
            let own = samples_for(earlier, peer);
            assert(own.push(last.1).drop_last() =~= own);
            assert(events[events.len() - 1].0 == peer);
        } else if recorded_all(events, capacity).contains_key(peer) {
            let i = choose|i: int| 0 <= i < earlier.len() && #[trigger] earlier[i].0 == peer;
            assert(events[i].0 == peer);
        } else if exists|i: int| 0 <= i < events.len() && #[trigger] events[i].0 == peer {
            let i = choose|i: int| 0 <= i < events.len() && #[trigger] events[i].0 == peer;
            assert(earlier[i].0 == peer);
        }
    }
}

/// No window of `entries` is longer than `capacity`, and the peers are
/// finitely many.
pub open spec fn bounded(entries: Map<Seq<char>, Seq<u64>>, capacity: nat) -> bool {
    &&& entries.dom().finite()
    &&& forall|peer: Seq<char>| #[trigger] entries.contains_key(peer) ==> entries[peer].len() <= capacity
}

/// Recording keeps every window within the capacity.
pub proof fn lemma_recorded_bounded(
    entries: Map<Seq<char>, Seq<u64>>,
    peer: Seq<char>,
    sample: u64,
    capacity: nat,
)
    requires
        bounded(entries, capacity),
    ensures
        bounded(recorded(entries, peer, sample, capacity), capacity),
{
}

/// The first sample of a peer adds exactly one entry; a later one adds none.
pub proof fn lemma_recorded_count(
    entries: Map<Seq<char>, Seq<u64>>,
    peer: Seq<char>,
    sample: u64,
    capacity: nat,
)
    requires
        entries.dom().finite(),
    ensures
        recorded(entries, peer, sample, capacity).dom().finite(),
        !entries.contains_key(peer) ==> recorded(entries, peer, sample, capacity).dom().len()
            == entries.dom().len() + 1,
        entries.contains_key(peer) ==> recorded(entries, peer, sample, capacity).dom().len()
            == entries.dom().len(),
{
    assert(recorded(entries, peer, sample, capacity).dom() =~= entries.dom().insert(peer));
}

/// After the first sample of each of `n` different peers, the table has
/// exactly `n` entries: those peers.
pub proof fn lemma_distinct_peers_counted(events: Seq<(Seq<char>, u64)>, capacity: nat)
    requires
        forall|i: int, j: int| 0 <= i < j < events.len() ==> events[i].0 != events[j].0,
    ensures
        recorded_all(events, capacity).dom().finite(),
        recorded_all(events, capacity).dom().len() == events.len(),
        forall|peer: Seq<char>|
            recorded_all(events, capacity).contains_key(peer) <==> exists|i: int|
                0 <= i < events.len() && #[trigger] events[i].0 == peer,
    decreases events.len(),
{
    if events.len() > 0 {
        let earlier = events.drop_last();
        lemma_distinct_peers_counted(earlier, capacity);
        let before = recorded_all(earlier, capacity);
        let last = events.last();
        assert(!before.contains_key(last.0)) by {
            if before.contains_key(last.0) {
                let i = choose|i: int| 0 <= i < earlier.len() && #[trigger] earlier[i].0 == last.0;
                assert(events[i].0 == events[events.len() - 1].0);
            }
        }
        lemma_recorded_count(before, last.0, last.1, capacity);
        assert forall|peer: Seq<char>|
            recorded_all(events, capacity).contains_key(peer) implies exists|i: int|
            0 <= i < events.len() && #[trigger] events[i].0 == peer by {
            if peer == last.0 {
                assert(events[events.len() - 1].0 == peer);
            } else {
                let i = choose|i: int| 0 <= i < earlier.len() && #[trigger] earlier[i].0 == peer;
                assert(events[i].0 == peer);
            }
        }
        assert forall|peer: Seq<char>|
            (exists|i: int| 0 <= i < events.len() && #[trigger] events[i].0 == peer)
            implies recorded_all(events, capacity).contains_key(peer) by {
            let i = choose|i: int| 0 <= i < events.len() && #[trigger] events[i].0 == peer;
            if i < events.len() - 1 {
                assert(earlier[i].0 == peer);
            }
        }
    }
}

/// A copy of every entry of the table, taken at the time of the call.
fn snapshot(table: &CHashMap<String, Vec<u64>>) -> (entries: Vec<(String, Vec<u64>)>)
    ensures
        is_listing_of(entries@, table_entries(*table)),
{
    table_into_entries(table_clone(table))
}

/// Records one sample for a peer: the peer gets an empty window if it has
/// none, and the window then takes the sample.
fn record(table: &mut CHashMap<String, Vec<u64>>, peer_id: String, sample: u64, window_size: usize)
    ensures
        table_entries(*final(table)) == recorded(
            table_entries(*old(table)),
            peer_id@,
            sample,
            window_size as nat,
        ),
{
    if !table_contains(table, &peer_id) {
        table_insert_new(table, peer_id.clone(), Vec::new());
    }
    let mut window = table_swap_window(table, &peer_id, Vec::new());
    window.push_lossy(sample, window_size);
    let _ = table_swap_window(table, &peer_id, window);
    proof {
        assert(table_entries(*final(table)) =~= recorded(
            table_entries(*old(table)),
            peer_id@,
            sample,
            window_size as nat,
        ));
    }
}

/// The window that `listing` holds for `peer_id`, if it lists the peer.
fn find_window(listing: Vec<(String, Vec<u64>)>, peer_id: &String, Ghost(model): Ghost<Map<Seq<char>, Seq<u64>>>) -> (found: Option<Vec<u64>>)
    requires
        is_listing_of(listing@, model),
    ensures
        found is Some <==> model.contains_key(peer_id@),
        found matches Some(window) ==> window@ == model[peer_id@],
{
    let ghost all = listing@;
    let mut rest = listing;
    while rest.len() > 0
        invariant
            rest@.len() <= all.len(),
            rest@ == all.take(rest@.len() as int),
            is_listing_of(all, model),
            forall|j: int| rest@.len() <= j < all.len() ==> all[j].0@ != peer_id@,
        decreases rest@.len(),
    {
        let ghost at = rest@.len() - 1;
        let entry = rest.pop().unwrap();
        proof {
            assert(entry == all[at]);
            assert(rest@ =~= all.take(rest@.len() as int));
        }
        if entry.0 == *peer_id {
            return Some(entry.1);
        }
    }
    None
}

/// Latency and transmission statistics of one node about its peers.
pub struct Stats {
    pings_to_peers: CHashMap<String, Vec<u64>>,
    transmissions_rates: CHashMap<String, Vec<u64>>,
    window_size: usize,
    peer_id: String,
}

impl Stats {
    /// The ping windows, by peer.
    pub closed spec fn pings(&self) -> Map<Seq<char>, Seq<u64>> {
        table_entries(self.pings_to_peers)
    }

    /// The windows of transmission time per byte, by peer.
    pub closed spec fn transmissions(&self) -> Map<Seq<char>, Seq<u64>> {
        table_entries(self.transmissions_rates)
    }

    /// The number of samples kept per peer and metric.
    pub closed spec fn window(&self) -> nat {
        self.window_size as nat
    }

    /// The identifier of the node itself.
    pub closed spec fn node(&self) -> Seq<char> {
        self.peer_id@
    }

    /// Both tables hold finitely many peers and no window is longer than
    /// the window size.
    pub open spec fn wf(&self) -> bool {
        &&& bounded(self.pings(), self.window())
        &&& bounded(self.transmissions(), self.window())
    }

    /// A tracker that has seen no peer.
    pub fn new(window_size: usize, peer_id: String) -> (stats: Self)
        ensures
            stats.wf(),
            stats.pings() == no_entries(),
            stats.transmissions() == no_entries(),
            stats.window() == window_size,
            stats.node() == peer_id@,
    {
        Stats {
            pings_to_peers: table_new(),
            transmissions_rates: table_new(),
            window_size,
            peer_id,
        }
    }

    /// Records a round-trip time, in nanoseconds, for a peer.
    pub fn add_ping(&mut self, peer_id: String, rtt: u64)
        requires
            old(self).wf(),
        ensures
            final(self).wf(),
            final(self).pings() == recorded(old(self).pings(), peer_id@, rtt, old(self).window()),
            final(self).transmissions() == old(self).transmissions(),
            final(self).window() == old(self).window(),
            final(self).node() == old(self).node(),
    {
        proof {
            lemma_recorded_bounded(self.pings(), peer_id@, rtt, self.window());
        }
        record(&mut self.pings_to_peers, peer_id, rtt, self.window_size);
    }

    /// Records a transmission of `n_bytes` bytes that took `time`
    /// nanoseconds: the sample is the time per byte, rounded down. A
    /// transmission of no bytes is refused and changes nothing.
    pub fn add_transmission(&mut self, peer_id: String, time: u64, n_bytes: u32) -> (outcome: Result<
        (),
        StatsError,
    >)
        requires
            old(self).wf(),
        ensures
            final(self).wf(),
            outcome is Err <==> n_bytes == 0,
            outcome is Err ==> outcome == Err::<(), StatsError>(StatsError::NoBytes)
                && final(self).transmissions() == old(self).transmissions(),
            outcome is Ok ==> final(self).transmissions() == recorded(
                old(self).transmissions(),
                peer_id@,
                (time / n_bytes as u64) as u64,
                old(self).window(),
            ),
            final(self).pings() == old(self).pings(),
            final(self).window() == old(self).window(),
            final(self).node() == old(self).node(),
    {
        if n_bytes == 0 {
            return Err(StatsError::NoBytes);
        }
        let rate: u64 = time / (n_bytes as u64);
        proof {
            lemma_recorded_bounded(self.transmissions(), peer_id@, rate, self.window());
        }
        record(&mut self.transmissions_rates, peer_id, rate, self.window_size);
        Ok(())
    }

    /// The number of peers with a ping window.
    pub fn ping_peer_count(&self) -> (count: usize)
        ensures
            count == self.pings().dom().len(),
    {
        table_len(&self.pings_to_peers)
    }

    /// The number of peers with a transmission window.
    pub fn transmission_peer_count(&self) -> (count: usize)
        ensures
            count == self.transmissions().dom().len(),
    {
        table_len(&self.transmissions_rates)
    }

    /// A copy of the ping window of a peer, oldest sample first, if the
    /// peer has one.
    pub fn ping_samples(&self, peer_id: &String) -> (found: Option<Vec<u64>>)
        ensures
            found is Some <==> self.pings().contains_key(peer_id@),
            found matches Some(window) ==> window@ == self.pings()[peer_id@],
    {
        find_window(snapshot(&self.pings_to_peers), peer_id, Ghost(self.pings()))
    }

    /// A copy of the transmission window of a peer, oldest sample first, if
    /// the peer has one.
    pub fn transmission_samples(&self, peer_id: &String) -> (found: Option<Vec<u64>>)
        ensures
            found is Some <==> self.transmissions().contains_key(peer_id@),
            found matches Some(window) ==> window@ == self.transmissions()[peer_id@],
    {
        find_window(
            snapshot(&self.transmissions_rates),
            peer_id,
            Ghost(self.transmissions()),
        )
    }

    /// A copy of every ping window with its peer, each peer once, as the
    /// table stands at the time of the call.
    pub fn ping_entries(&self) -> (entries: Vec<(String, Vec<u64>)>)
        ensures
            is_listing_of(entries@, self.pings()),
    {
        snapshot(&self.pings_to_peers)
    }

    /// A copy of every transmission window with its peer, each peer once,
    /// as the table stands at the time of the call.
    pub fn transmission_entries(&self) -> (entries: Vec<(String, Vec<u64>)>)
        ensures
            is_listing_of(entries@, self.transmissions()),
    {
        snapshot(&self.transmissions_rates)
    }

    /// The report of this node: one line for every peer of each table. The
    /// tables do not promise an order, so the lines of a section follow
    /// some listing of its table.
    pub fn report(&self) -> (text: String)
        ensures
            exists|pings: Seq<(String, Vec<u64>)>, transmissions: Seq<(String, Vec<u64>)>|
                is_listing_of(pings, self.pings()) && is_listing_of(
                    transmissions,
                    self.transmissions(),
                ) && text@ == #[trigger] report_text(self.node(), pings, transmissions),
    {
        let pings = self.ping_entries();
        let transmissions = self.transmission_entries();
        let text = render_report(&self.peer_id, &pings, &transmissions);
        proof {
            assert(is_listing_of(pings@, self.pings()) && is_listing_of(
                transmissions@,
                self.transmissions(),
            ) && text@ == report_text(self.node(), pings@, transmissions@));
        }
        text
    }
}

} // verus!
