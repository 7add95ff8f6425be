//! Who is home: the set of reachable addresses, the debouncing of ping
//! results, and what the screen does when presence changes.

use vstd::prelude::*;

verus! {

/// Whether an address came or went.
#[derive(Clone, Copy, Debug, PartialEq, Eq, Structural)]
pub enum NetworkEventType {
    Connected,
    Left,
}

/// A change in the reachability of an IPv4 address (as its 32-bit number).
#[derive(Clone, Copy, Debug, PartialEq, Eq, Structural)]
pub struct NetworkEvent {
    pub ip: u32,
    pub ev: NetworkEventType,
}

/// `ips` without any entry equal to `ip`, the others in order.
pub open spec fn without(ips: Seq<u32>, ip: u32) -> Seq<u32> {
    ips.filter(|v: u32| v != ip)
}

/// The connected addresses after `event`: a new address is appended, a
/// known one that leaves is removed; anything else changes nothing.
pub open spec fn after_event(ips: Seq<u32>, event: NetworkEvent) -> Seq<u32> {
    match event.ev {
        NetworkEventType::Connected => if ips.contains(event.ip) {
            ips
        } else {
            ips.push(event.ip)
        },
        NetworkEventType::Left => if ips.contains(event.ip) {
            without(ips, event.ip)
        } else {
            ips
        },
    }
}

/// Whether `event` changes the connected addresses.
pub open spec fn event_changes(ips: Seq<u32>, event: NetworkEvent) -> bool {
    match event.ev {
        NetworkEventType::Connected => !ips.contains(event.ip),
        NetworkEventType::Left => ips.contains(event.ip),
    }
}

fn contains_ip(ips: &Vec<u32>, ip: u32) -> (found: bool)
    ensures
        found == ips@.contains(ip),
{
    let mut i: usize = 0;
    while i < ips.len()
        invariant
            i <= ips@.len(),
            forall|j: int| 0 <= j < i ==> ips@[j] != ip,
        decreases ips@.len() - i,
    {
        if ips[i] == ip {
            assert(ips@[i as int] == ip);
            return true;
        }
        i += 1;
    }
    false
}

fn remove_ip(ips: &Vec<u32>, ip: u32) -> (kept: Vec<u32>)
    ensures
        kept@ == without(ips@, ip),
{
    let mut kept: Vec<u32> = Vec::new();
    let mut i: usize = 0;
    assert(ips@.take(0) =~= Seq::<u32>::empty());
    reveal_with_fuel(Seq::filter, 1);
    while i < ips.len()
        invariant
            i <= ips@.len(),
            kept@ == without(ips@.take(i as int), ip),
        decreases ips@.len() - i,
    {
        reveal_with_fuel(Seq::filter, 1);
        assert(ips@.take(i + 1).drop_last() =~= ips@.take(i as int));
        let v = ips[i];
        if v != ip {
            kept.push(v);
        }
        i += 1;
    }
    assert(ips@.take(ips@.len() as int) =~= ips@);
    kept
}

/// Records `x` in the list of connected addresses; returns whether the list
/// changed. An address that connects twice or leaves without having
/// connected changes nothing.
pub fn handle_event(connected_ips: &mut Vec<u32>, x: &NetworkEvent) -> (changed: bool)
    ensures
        final(connected_ips)@ == after_event(old(connected_ips)@, *x),
        changed == event_changes(old(connected_ips)@, *x),
{
    match x.ev {
        NetworkEventType::Connected => {
            if contains_ip(connected_ips, x.ip) {
                return false;
            }
            connected_ips.push(x.ip);
            true
        },
        NetworkEventType::Left => {
            if contains_ip(connected_ips, x.ip) {
                let kept = remove_ip(connected_ips, x.ip);
                *connected_ips = kept;
                return true;
            }
            false
        },
    }
}

proof fn lemma_without_facts(ips: Seq<u32>, ip: u32)
    ensures
        !without(ips, ip).contains(ip),
        forall|v: u32| v != ip ==> (without(ips, ip).contains(v) <==> ips.contains(v)),
        ips.no_duplicates() ==> without(ips, ip).no_duplicates(),
        !ips.contains(ip) ==> without(ips, ip) == ips,
    decreases ips.len(),
{
    reveal_with_fuel(Seq::filter, 1);
    if ips.len() > 0 {
        let rest = ips.drop_last();
        let l = ips.last();
        lemma_without_facts(rest, ip);
        assert(rest.push(l) =~= ips);
        assert forall|v: u32| #[trigger] ips.contains(v) <==> (rest.contains(v) || v == l) by {
            if ips.contains(v) {
                let j = choose|j: int| 0 <= j < ips.len() && ips[j] == v;
                if j < ips.len() - 1 {
                    assert(rest[j] == v);
                }
            }
            if rest.contains(v) {
                let j = choose|j: int| 0 <= j < rest.len() && rest[j] == v;
                assert(ips[j] == v);
            }
            if v == l {
                assert(ips[ips.len() - 1] == v);
            }
        }
        let w = without(rest, ip);
        if l != ip {
            assert(without(ips, ip) == w.push(l));
            assert forall|v: u32| #[trigger] w.push(l).contains(v) <==> (w.contains(v) || v == l) by {
                if w.push(l).contains(v) {
                    let j = choose|j: int| 0 <= j < w.push(l).len() && w.push(l)[j] == v;
                    if j < w.len() {
                        assert(w[j] == v);
                    }
                }
                if w.contains(v) {
                    let j = choose|j: int| 0 <= j < w.len() && w[j] == v;
                    assert(w.push(l)[j] == v);
                }
                if v == l {
                    assert(w.push(l)[w.len() as int] == v);
                }
            }
            if ips.no_duplicates() {
                assert(rest.no_duplicates());
                assert(!rest.contains(l)) by {
                    if rest.contains(l) {
                        let j = choose|j: int| 0 <= j < rest.len() && rest[j] == l;
                        assert(ips[j] == ips[ips.len() - 1]);
                    }
                }
                assert(!w.contains(l));
                assert forall|a: int, b: int| 0 <= a < b < w.push(l).len() implies w.push(l)[a] != w.push(l)[b] by {
                    if b == w.len() {
                        assert(w.contains(w[a]));
                    }
                }
            }
        } else {
            assert(without(ips, ip) == w);
            if ips.no_duplicates() {
                assert(rest.no_duplicates());
            }
        }
    } else {
        assert(without(ips, ip) =~= ips);
    }
}

/// Events keep the list free of repeats, and as a set it gains a connecting
/// address and loses a leaving one.
pub proof fn lemma_event_set_semantics(ips: Seq<u32>, event: NetworkEvent)
    ensures
        ips.no_duplicates() ==> after_event(ips, event).no_duplicates(),
        forall|v: u32| #[trigger] after_event(ips, event).contains(v) <==> match event.ev {
            NetworkEventType::Connected => ips.contains(v) || v == event.ip,
            NetworkEventType::Left => ips.contains(v) && v != event.ip,
        },
{
    lemma_without_facts(ips, event.ip);
    match event.ev {
        NetworkEventType::Connected => {
            if !ips.contains(event.ip) {
                let n = ips.push(event.ip);
                assert forall|v: u32| #[trigger] n.contains(v) <==> (ips.contains(v) || v == event.ip) by {
                    if n.contains(v) {
                        let j = choose|j: int| 0 <= j < n.len() && n[j] == v;
                        if j < ips.len() {
                            assert(ips[j] == v);
                        }
                    }
                    if ips.contains(v) {
                        let j = choose|j: int| 0 <= j < ips.len() && ips[j] == v;
                        assert(n[j] == v);
                    }
                    if v == event.ip {
                        assert(n[ips.len() as int] == v);
                    }
                }
                if ips.no_duplicates() {
                    assert forall|a: int, b: int| 0 <= a < b < n.len() implies n[a] != n[b] by {
                        if b == ips.len() {
                            assert(ips.contains(ips[a]));
                        }
                    }
                }
            }
        },
        NetworkEventType::Left => {},
    }
}

/// An address that was not connected and connects, then leaves, leaves the
/// list as it was.
pub proof fn lemma_connect_then_leave(ips: Seq<u32>, ip: u32)
    requires
        !ips.contains(ip),
    ensures
        after_event(
            after_event(ips, NetworkEvent { ip, ev: NetworkEventType::Connected }),
            NetworkEvent { ip, ev: NetworkEventType::Left },
        ) == ips,
{
    reveal_with_fuel(Seq::filter, 1);
    let n = ips.push(ip);
    assert(n[ips.len() as int] == ip);
    assert(n.contains(ip));
    assert(n.drop_last() =~= ips);
    lemma_without_facts(ips, ip);
}


/// An event is reported as a change exactly when the list of connected
/// addresses after it differs from the list before it.
pub proof fn lemma_change_reported_exactly(ips: Seq<u32>, event: NetworkEvent)
    ensures
        event_changes(ips, event) <==> after_event(ips, event) != ips,
{
    lemma_without_facts(ips, event.ip);
    match event.ev {
        NetworkEventType::Connected => {
            if !ips.contains(event.ip) {
                assert(ips.push(event.ip).len() != ips.len());
            }
        },
        NetworkEventType::Left => {
            if ips.contains(event.ip) {
                assert(!without(ips, event.ip).contains(event.ip));
            }
        },
    }
}

/// One ping result fed to the per-address watch of the greeter: the new
/// (last published reachability, debounce count) and the reachability to
/// publish, if any. The first result is published at once; later, a change
/// is published once six results in a row disagree with the last published
/// one, and any agreeing result starts the count again.
pub open spec fn link_step(last: Option<bool>, debounce: u8, reachable: bool) -> (Option<bool>, u8, Option<bool>) {
    match last {
        None => (Some(reachable), debounce, Some(reachable)),
        Some(l) => if l == reachable {
            (Some(l), 0u8, None)
        } else if debounce + 1 > 5 {
            (Some(reachable), 0u8, Some(reachable))
        } else {
            (Some(l), (debounce + 1) as u8, None)
        },
    }
}

/// The debounced reachability of one watched address.
pub struct LinkWatch {
    last_sent_event: Option<bool>,
    debounce_count: u8,
}

impl View for LinkWatch {
    type V = (Option<bool>, u8);

    closed spec fn view(&self) -> (Option<bool>, u8) {
        (self.last_sent_event, self.debounce_count)
    }
}

impl LinkWatch {
    #[verifier::type_invariant]
    spec fn inv(&self) -> bool {
        self.debounce_count <= 5
    }

    /// A watch that has published nothing yet.
    pub fn new() -> (w: Self)
        ensures
            w@ == (None::<bool>, 0u8),
    {
        LinkWatch { last_sent_event: None, debounce_count: 0 }
    }

    /// Feeds one ping result; returns the event to send, if any.
    pub fn observe(&mut self, reachable: bool) -> (event: Option<NetworkEventType>)
        ensures
            ({
                let (last, debounce, sent) = link_step(old(self)@.0, old(self)@.1, reachable);
                &&& final(self)@ == (last, debounce)
                &&& event == match sent {
                    Some(true) => Some(NetworkEventType::Connected),
                    Some(false) => Some(NetworkEventType::Left),
                    None => None::<NetworkEventType>,
                }
            }),
    {
        proof {
            use_type_invariant(&*self);
        }
        let (last, debounce, send) = match self.last_sent_event {
            None => (Some(reachable), self.debounce_count, true),
            Some(l) => {
                if l == reachable {
                    (Some(l), 0u8, false)
                } else if self.debounce_count + 1 > 5 {
                    (Some(reachable), 0u8, true)
                } else {
                    (Some(l), self.debounce_count + 1, false)
                }
            },
        };
        *self = LinkWatch { last_sent_event: last, debounce_count: debounce };
        if send {
            if reachable {
                Some(NetworkEventType::Connected)
            } else {
                Some(NetworkEventType::Left)
            }
        } else {
            None
        }
    }
}

/// From a settled state, five results that disagree with the published one
/// publish nothing, and the sixth publishes the change.
pub proof fn lemma_link_debounce(l: bool)
    ensures
        ({
            let s1 = link_step(Some(l), 0, !l);
            let s2 = link_step(s1.0, s1.1, !l);
            let s3 = link_step(s2.0, s2.1, !l);
            let s4 = link_step(s3.0, s3.1, !l);
            let s5 = link_step(s4.0, s4.1, !l);
            let s6 = link_step(s5.0, s5.1, !l);
            &&& s1.2 is None && s2.2 is None && s3.2 is None && s4.2 is None && s5.2 is None
            &&& s5.0 == Some(l) && s5.1 == 5
            &&& s6 == (Some(!l), 0u8, Some(!l))
        }),
{
}

/// A result that agrees with the published one publishes nothing and
/// starts the count of disagreeing results again.
pub proof fn lemma_link_agreeing_resets(l: bool, debounce: u8)
    ensures
        link_step(Some(l), debounce, l) == (Some(l), 0u8, None::<bool>),
{
}

/// One ping result fed to the single-address watch of the arm screen: the
/// new (last published presence, debounce count) and the presence to
/// publish, if any. The first result is published at once; later, a change
/// is published at the sixth result that disagrees with the last published
/// one, whether or not agreeing results came in between.
pub open spec fn presence_step(last: Option<bool>, debounce: i32, present: bool) -> (Option<bool>, i32, Option<bool>) {
    match last {
        None => (Some(present), debounce, Some(present)),
        Some(l) => if l != present {
            if debounce + 1 > 5 {
                (Some(present), 0i32, Some(present))
            } else {
                (Some(l), (debounce + 1) as i32, None)
            }
        } else {
            (Some(l), debounce, None)
        },
    }
}

/// The debounced presence of the single watched address.
pub struct PresenceWatch {
    last_sent_event: Option<bool>,
    debounce_count: i32,
}

impl View for PresenceWatch {
    type V = (Option<bool>, i32);

    closed spec fn view(&self) -> (Option<bool>, i32) {
        (self.last_sent_event, self.debounce_count)
    }
}

impl PresenceWatch {
    #[verifier::type_invariant]
    spec fn inv(&self) -> bool {
        0 <= self.debounce_count <= 5
    }

    /// A watch that has published nothing yet.
    pub fn new() -> (w: Self)
        ensures
            w@ == (None::<bool>, 0i32),
    {
        PresenceWatch { last_sent_event: None, debounce_count: 0 }
    }

    /// Feeds one ping result; returns the presence to publish, if any.
    pub fn observe(&mut self, present: bool) -> (publish: Option<bool>)
        ensures
            ({
                let (last, debounce, sent) = presence_step(old(self)@.0, old(self)@.1, present);
                &&& final(self)@ == (last, debounce)
                &&& publish == sent
            }),
    {
        proof {
            use_type_invariant(&*self);
        }
        let (last, debounce, publish) = match self.last_sent_event {
            None => (Some(present), self.debounce_count, Some(present)),
            Some(l) => {
                if l != present {
                    if self.debounce_count + 1 > 5 {
                        (Some(present), 0i32, Some(present))
                    } else {
                        (Some(l), self.debounce_count + 1, None)
                    }
                } else {
                    (Some(l), self.debounce_count, None)
                }
            },
        };
        *self = PresenceWatch { last_sent_event: last, debounce_count: debounce };
        publish
    }
}

/// Agreeing results leave the arm screen's watch as it is, so the sixth
/// disagreeing result since the last publication publishes the change even
/// when agreeing ones come in between.
pub proof fn lemma_presence_agreeing_keeps(l: bool, debounce: i32)
    ensures
        presence_step(Some(l), debounce, l) == (Some(l), debounce, None::<bool>),
{
}

/// From a settled state, the sixth disagreeing result publishes.
pub proof fn lemma_presence_debounce(l: bool)
    ensures
        ({
            let s1 = presence_step(Some(l), 0, !l);
            let s2 = presence_step(s1.0, s1.1, !l);
            let s3 = presence_step(s2.0, s2.1, !l);
            let s4 = presence_step(s3.0, s3.1, !l);
            let s5 = presence_step(s4.0, s4.1, !l);
            let s6 = presence_step(s5.0, s5.1, !l);
            &&& s1.2 is None && s2.2 is None && s3.2 is None && s4.2 is None && s5.2 is None
            &&& s6 == (Some(!l), 0i32, Some(!l))
        }),
{
}

/// What the greeter screen does after a batch of events.
#[derive(Clone, Copy, Debug, PartialEq, Eq, Structural)]
pub enum GreeterAction {
    /// Leave the screen as it is.
    Nothing,
    /// Blank the screen with a full refresh.
    Clear,
    /// Show the greeting and fade in the heart.
    Greet,
}

/// The greeter's decision after a batch of events: nothing unless the list
/// changed; blank when nobody is connected; greet when exactly one address
/// is connected; otherwise nothing.
pub fn greeter_reaction(changes_made: bool, connected: usize) -> (action: GreeterAction)
    ensures
        action == if !changes_made {
            GreeterAction::Nothing
        } else if connected == 0 {
            GreeterAction::Clear
        } else if connected != 1 {
            GreeterAction::Nothing
        } else {
            GreeterAction::Greet
        },
{
    if !changes_made {
        GreeterAction::Nothing
    } else if connected == 0 {
        GreeterAction::Clear
    } else if connected != 1 {
        GreeterAction::Nothing
    } else {
        GreeterAction::Greet
    }
}

/// What the arm screen does when it looks at the published presence.
#[derive(Clone, Copy, Debug, PartialEq, Eq, Structural)]
pub enum PresenceAction {
    /// Nothing changed: wait and look again.
    Wait,
    /// The person arrived: greet and fade in the heart.
    Greet,
    /// The person left: blank the screen.
    Clear,
}

/// Compares the published presence with the one last acted on, flipping
/// the latter when they differ.
pub fn presence_reaction(present: bool, last_seen: &mut bool) -> (action: PresenceAction)
    ensures
        present == *old(last_seen) ==> action == PresenceAction::Wait && *final(last_seen) == *old(last_seen),
        present != *old(last_seen) ==> *final(last_seen) == present && action == if present {
            PresenceAction::Greet
        } else {
            PresenceAction::Clear
        },
{
    if present == *last_seen {
        return PresenceAction::Wait;
    }
    *last_seen = !*last_seen;
    if *last_seen {
        PresenceAction::Greet
    } else {
        PresenceAction::Clear
    }
}

} // verus!
