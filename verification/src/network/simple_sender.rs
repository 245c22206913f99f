//! Sends messages as far as possible, over one connection for each peer.
use crate::ident::Address;
use crate::table::Table;
use rand::rngs::SmallRng;
use vstd::prelude::*;

verus! {

/// The number of messages that can wait for a connection.
pub const CONNECTION_CAPACITY: usize = 5_000;

/// The random number generator `rand::rngs::SmallRng`, which only picks peers.
#[verifier::external_type_specification]
#[verifier::external_body]
pub struct ExSmallRng(SmallRng);

/// Calls `from_entropy` of `rand::rngs::SmallRng`, which seeds a generator from the operating
/// system, and which does not return where that gives no randomness. Nothing is claimed of the
/// generator.
#[verifier::external_body]
fn seeded_rng() -> SmallRng {
    <SmallRng as rand::SeedableRng>::from_entropy()
}

/// Calls `shuffle` of `rand::seq::SliceRandom`, which swaps elements at random. The elements stay
/// the same; their order depends on the generator.
#[verifier::external_body]
fn shuffle(addresses: &mut Vec<Address>, rng: &mut SmallRng)
    ensures
        final(addresses)@.to_multiset() == old(addresses)@.to_multiset(),
{
    rand::seq::SliceRandom::shuffle(addresses.as_mut_slice(), rng)
}

/// What became of a message that was handed to a connection.
#[derive(Clone, Copy, PartialEq, Eq, Structural, Debug)]
pub enum Enqueue {
    /// It waits to be sent.
    Sent,
    /// Too many messages wait already.
    Full,
    /// The connection is closed.
    Closed,
}

/// What is to be done next to send a message.
#[derive(Clone, Copy, PartialEq, Eq, Structural, Debug)]
pub enum SendStep {
    /// Hand it to the connection with this number.
    Existing(u64),
    /// Open a connection, and hand it to that.
    Open,
    /// Nothing: the message was handed over, or dropped.
    Finished(bool),
}

/// The first step to send a message to `address`.
pub open spec fn first_step(connections: Map<Address, u64>, address: Address) -> SendStep {
    if connections.contains_key(address) {
        SendStep::Existing(connections[address])
    } else {
        SendStep::Open
    }
}

/// The step after the message was handed to a connection that was open before. A message for which
/// there is no room is dropped, and a connection that was closed is opened anew.
pub open spec fn step_after_existing(result: Enqueue) -> SendStep {
    match result {
        Enqueue::Sent => SendStep::Finished(true),
        Enqueue::Full => SendStep::Finished(false),
        Enqueue::Closed => SendStep::Open,
    }
}

/// The connections after the message for `address` was handed to the new connection `connection`:
/// one that takes no message is not kept.
pub open spec fn connections_after_opening(
    connections: Map<Address, u64>,
    address: Address,
    connection: u64,
    result: Enqueue,
) -> Map<Address, u64> {
    if result is Sent {
        connections.insert(address, connection)
    } else {
        connections
    }
}

/// The first `nodes` of `shuffled`, or all of them.
pub open spec fn first_nodes(shuffled: Seq<Address>, nodes: usize) -> Seq<Address> {
    if nodes < shuffled.len() {
        shuffled.take(nodes as int)
    } else {
        shuffled
    }
}

/// Some order of `addresses` begins with `targets`, which are `nodes` of them or, if they are fewer,
/// all of them.
pub open spec fn are_lucky(addresses: Seq<Address>, nodes: usize, targets: Seq<Address>) -> bool {
    exists|shuffled: Seq<Address>|
        shuffled.to_multiset() == addresses.to_multiset() && targets == #[trigger] first_nodes(
            shuffled,
            nodes,
        )
}

/// A message on its way to a peer.
#[derive(Clone, Copy, PartialEq, Eq, Structural, Debug)]
pub struct SendTask {
    pub address: Address,
    /// Whether it waits until there is room for it.
    pub waits: bool,
    /// What is to be done next.
    pub step: SendStep,
}

/// A message that goes to several peers.
pub struct Broadcast {
    pub addresses: Vec<Address>,
    /// Whether it waits until there is room for it.
    pub waits: bool,
    /// The number of peers to which it has gone, or for which it was dropped.
    pub next: usize,
    /// The number of peers for which it was dropped.
    pub dropped: usize,
}

impl Broadcast {
    /// The counts are within the peers.
    pub open spec fn well_formed(&self) -> bool {
        self.dropped <= self.next <= self.addresses@.len()
    }

    /// A message that has gone nowhere.
    pub fn new(addresses: Vec<Address>, waits: bool) -> (b: Self)
        ensures
            b.well_formed(),
            b.addresses == addresses,
            b.waits == waits,
            b.next == 0,
            b.dropped == 0,
    {
        Broadcast { addresses, waits, next: 0, dropped: 0 }
    }

    /// The next peer, in order, unless there is none.
    pub fn next_peer(&self) -> (address: Option<Address>)
        requires
            self.well_formed(),
        ensures
            address == (if self.next < self.addresses@.len() {
                Some(self.addresses@[self.next as int])
            } else {
                None
            }),
    {
        if self.next < self.addresses.len() {
            Some(self.addresses[self.next])
        } else {
            None
        }
    }

    /// Takes note of whether the message was handed over for the next peer.
    pub fn on_finished(&mut self, sent: bool)
        requires
            old(self).well_formed(),
            old(self).next < old(self).addresses@.len(),
        ensures
            final(self).well_formed(),
            final(self).addresses == old(self).addresses,
            final(self).waits == old(self).waits,
            final(self).next == old(self).next + 1,
            final(self).dropped == old(self).dropped + (if sent {
                0int
            } else {
                1int
            }),
    {
        assert(self.next < self.addresses.len());
        self.next = self.next + 1;
        if !sent {
            self.dropped = self.dropped + 1;
        }
    }
}

/// Keeps one connection for each peer.
pub struct SimpleSender {
    /// The number of the connection to each peer.
    pub connections: Table<Address, u64>,
    /// Picks peers.
    pub rng: SmallRng,
}

impl Default for SimpleSender {
    fn default() -> (s: Self)
        ensures
            s.connections@ == Map::<Address, u64>::empty(),
    {
        SimpleSender::new()
    }
}

impl SimpleSender {
    /// A sender without connections.
    pub fn new() -> (s: Self)
        ensures
            s.connections@ == Map::<Address, u64>::empty(),
    {
        SimpleSender { connections: Table::new(), rng: seeded_rng() }
    }

    /// The first step to send a message to `address`.
    fn first(&self, address: &Address) -> (step: SendStep)
        ensures
            step == first_step(self.connections@, *address),
    {
        match self.connections.get(address) {
            Some(connection) => SendStep::Existing(*connection),
            None => SendStep::Open,
        }
    }

    /// A message for `address` that waits until there is room for it.
    pub fn send(&self, address: Address) -> (task: SendTask)
        ensures
            task == (SendTask {
                address,
                waits: true,
                step: first_step(self.connections@, address),
            }),
    {
        SendTask { address, waits: true, step: self.first(&address) }
    }

    /// A message for `address` that is dropped if there is no room for it.
    pub fn send_best_effort(&self, address: Address) -> (task: SendTask)
        ensures
            task == (SendTask {
                address,
                waits: false,
                step: first_step(self.connections@, address),
            }),
    {
        SendTask { address, waits: false, step: self.first(&address) }
    }

    /// The message after it was handed to a connection that was open before.
    pub fn on_existing(task: SendTask, result: Enqueue) -> (next: SendTask)
        requires
            task.step is Existing,
            task.waits ==> !(result is Full),
        ensures
            next == (SendTask { step: step_after_existing(result), ..task }),
    {
        let step = match result {
            Enqueue::Sent => SendStep::Finished(true),
            Enqueue::Full => SendStep::Finished(false),
            Enqueue::Closed => SendStep::Open,
        };
        SendTask { address: task.address, waits: task.waits, step }
    }

    /// The message after it was handed to the new connection `connection`, which is kept if it took
    /// the message.
    pub fn on_opened(&mut self, task: SendTask, connection: u64, result: Enqueue) -> (next: SendTask)
        requires
            task.step is Open,
        ensures
            next == (SendTask { step: SendStep::Finished(result is Sent), ..task }),
            final(self).connections@ == connections_after_opening(
                old(self).connections@,
                task.address,
                connection,
                result,
            ),
            final(self).rng == old(self).rng,
    {
        let sent = matches!(result, Enqueue::Sent);
        if sent {
            self.connections.insert(task.address, connection);
        }
        SendTask { address: task.address, waits: task.waits, step: SendStep::Finished(sent) }
    }

    /// A message for all of `addresses`, in order, that waits until there is room for it.
    pub fn broadcast(addresses: Vec<Address>) -> (b: Broadcast)
        ensures
            b.well_formed(),
            b.addresses == addresses,
            b.waits,
            b.next == 0,
            b.dropped == 0,
    {
        Broadcast::new(addresses, true)
    }

    /// A message for all of `addresses`, in order, that is dropped where there is no room for it.
    pub fn broadcast_best_effort(addresses: Vec<Address>) -> (b: Broadcast)
        ensures
            b.well_formed(),
            b.addresses == addresses,
            !b.waits,
            b.next == 0,
            b.dropped == 0,
    {
        Broadcast::new(addresses, false)
    }

    /// `nodes` of `addresses`, picked at random.
    fn pick(&mut self, addresses: Vec<Address>, nodes: usize) -> (targets: Vec<Address>)
        ensures
            final(self).connections == old(self).connections,
            are_lucky(addresses@, nodes, targets@),
    {
        let mut targets = addresses;
        shuffle(&mut targets, &mut self.rng);
        let ghost shuffled = targets@;
        targets.truncate(nodes);
        assert(targets@ =~= first_nodes(shuffled, nodes));
        targets
    }

    /// A message for `nodes` of `addresses`, picked at random, that waits until there is room for
    /// it.
    pub fn lucky_broadcast(&mut self, addresses: Vec<Address>, nodes: usize) -> (b: Broadcast)
        ensures
            final(self).connections == old(self).connections,
            b.well_formed(),
            are_lucky(addresses@, nodes, b.addresses@),
            b.waits,
            b.next == 0,
            b.dropped == 0,
    {
        let targets = self.pick(addresses, nodes);
        Self::broadcast(targets)
    }

    /// A message for `nodes` of `addresses`, picked at random, that is dropped where there is no
    /// room for it.
    pub fn lucky_broadcast_best_effort(&mut self, addresses: Vec<Address>, nodes: usize) -> (b:
        Broadcast)
        ensures
            final(self).connections == old(self).connections,
            b.well_formed(),
            are_lucky(addresses@, nodes, b.addresses@),
            !b.waits,
            b.next == 0,
            b.dropped == 0,
    {
        let targets = self.pick(addresses, nodes);
        Self::broadcast_best_effort(targets)
    }
}

/// Something that happens to a connection.
#[derive(Clone, Copy, PartialEq, Eq, Structural, Debug)]
pub enum ConnectionEvent {
    /// The peer could not be reached.
    Unreachable,
    /// The peer was reached.
    Connected,
    /// A message was written, or it could not be.
    Written(bool),
    /// The peer replied, or its reply could not be read or will not come.
    Reply(bool),
}

/// What a connection does next.
#[derive(Clone, Copy, PartialEq, Eq, Structural, Debug)]
pub enum ConnectionStep {
    /// It goes on. Replies are not looked at.
    GoOn,
    /// It ends. The flag tells whether that counts as a failed send.
    End(bool),
}

/// What a connection does after `event`.
pub open spec fn step_after(event: ConnectionEvent) -> ConnectionStep {
    match event {
        ConnectionEvent::Unreachable => ConnectionStep::End(false),
        ConnectionEvent::Connected => ConnectionStep::GoOn,
        ConnectionEvent::Written(ok) => if ok {
            ConnectionStep::GoOn
        } else {
            ConnectionStep::End(true)
        },
        ConnectionEvent::Reply(ok) => if ok {
            ConnectionStep::GoOn
        } else {
            ConnectionStep::End(true)
        },
    }
}

/// A connection, from its opening to its end.
pub struct Connection;

impl Connection {
    /// What a connection does after `event`.
    pub fn step(event: ConnectionEvent) -> (step: ConnectionStep)
        ensures
            step == step_after(event),
    {
        match event {
            ConnectionEvent::Unreachable => ConnectionStep::End(false),
            ConnectionEvent::Connected => ConnectionStep::GoOn,
            ConnectionEvent::Written(true) | ConnectionEvent::Reply(true) => ConnectionStep::GoOn,
            ConnectionEvent::Written(false) | ConnectionEvent::Reply(false) => {
                ConnectionStep::End(true)
            },
        }
    }
}

/// Peers that are picked at random are among those that could be picked, none is picked more often
/// than it occurs, and there are as many as were asked for or can be had.
pub proof fn lucky_peers_are_peers(
    addresses: Seq<Address>,
    nodes: usize,
    targets: Seq<Address>,
    a: Address,
)
    requires
        are_lucky(addresses, nodes, targets),
    ensures
        targets.len() == (if nodes < addresses.len() {
            nodes as nat
        } else {
            addresses.len()
        }),
        targets.to_multiset().count(a) <= addresses.to_multiset().count(a),
        targets.contains(a) ==> addresses.contains(a),
{
    broadcast use vstd::seq_lib::group_to_multiset_ensures;
    let shuffled = choose|shuffled: Seq<Address>|
        shuffled.to_multiset() == addresses.to_multiset() && targets == #[trigger] first_nodes(
            shuffled,
            nodes,
        );
    assert(shuffled.len() == shuffled.to_multiset().len());
    assert(addresses.len() == addresses.to_multiset().len());
    if nodes < shuffled.len() {
        let rest = shuffled.skip(nodes as int);
        assert(shuffled =~= targets + rest);
        vstd::seq_lib::lemma_multiset_commutative(targets, rest);
        assert(shuffled.to_multiset() =~= targets.to_multiset().add(rest.to_multiset()));
    }
    if targets.contains(a) {
        assert(targets.to_multiset().count(a) > 0);
        assert(addresses.to_multiset().count(a) > 0);
    }
}

/// A message is dropped only for want of room or where a new connection fails, and neither touches
/// the connections: for want of room no connection is opened.
pub proof fn dropping_keeps_connections(
    connections: Map<Address, u64>,
    address: Address,
    connection: u64,
    result: Enqueue,
)
    ensures
        step_after_existing(result) == SendStep::Finished(false) <==> result is Full,
        step_after_existing(result) == SendStep::Open <==> result is Closed,
        !(result is Sent) ==> connections_after_opening(connections, address, connection, result)
            == connections,
{
}

/// The connection that took a message is the one that the next message to that peer goes to, and
/// those to other peers stay.
pub proof fn connections_are_reused(
    connections: Map<Address, u64>,
    address: Address,
    connection: u64,
    other: Address,
)
    ensures
        ({
            let next = connections_after_opening(connections, address, connection, Enqueue::Sent);
            &&& first_step(next, address) == SendStep::Existing(connection)
            &&& other != address ==> first_step(next, other) == first_step(connections, other)
        }),
{
}

/// A message goes to the connection with its peer, and one is opened exactly if there is none.
pub proof fn a_connection_is_opened_only_where_there_is_none(
    connections: Map<Address, u64>,
    address: Address,
)
    ensures
        match first_step(connections, address) {
            SendStep::Existing(id) => connections.contains_key(address) && connections[address]
                == id,
            SendStep::Open => !connections.contains_key(address),
            SendStep::Finished(_) => false,
        },
{
}

/// A message that a connection took is sent, one for which there is no room is dropped, and one whose
/// connection is closed goes to a new connection, which is kept exactly if it took the message.
pub proof fn a_message_is_sent_where_there_is_room(
    connections: Map<Address, u64>,
    address: Address,
    connection: u64,
    result: Enqueue,
    other: Address,
)
    ensures
        step_after_existing(Enqueue::Sent) == SendStep::Finished(true),
        step_after_existing(Enqueue::Full) == SendStep::Finished(false),
        step_after_existing(Enqueue::Closed) == SendStep::Open,
        ({
            let next = connections_after_opening(connections, address, connection, result);
            &&& result == Enqueue::Sent ==> next.contains_key(address) && next[address]
                == connection
            &&& other != address || result != Enqueue::Sent ==> (next.contains_key(other)
                <==> connections.contains_key(other)) && (connections.contains_key(other)
                ==> next[other] == connections[other])
        }),
{
}

/// A connection ends exactly where the peer cannot be reached, a message cannot be written or a reply
/// cannot be read, and only the last two count as failed sends.
pub proof fn a_connection_ends_where_something_fails(event: ConnectionEvent)
    ensures
        step_after(event) == ConnectionStep::End(false) <==> event == ConnectionEvent::Unreachable,
        step_after(event) == ConnectionStep::End(true) <==> event == ConnectionEvent::Written(false)
            || event == ConnectionEvent::Reply(false),
        step_after(event) == ConnectionStep::GoOn <==> event == ConnectionEvent::Connected || event
            == ConnectionEvent::Written(true) || event == ConnectionEvent::Reply(true),
{
}

/// Every choice of peers is some order of all of them cut down to as many as are asked for: all of them,
/// if there are not more.
pub proof fn enough_peers_are_picked(shuffled: Seq<Address>, nodes: usize, i: int)
    ensures
        first_nodes(shuffled, nodes).len() <= nodes,
        first_nodes(shuffled, nodes).len() <= shuffled.len(),
        first_nodes(shuffled, nodes).len() == nodes || first_nodes(shuffled, nodes) == shuffled,
        0 <= i < first_nodes(shuffled, nodes).len() ==> first_nodes(shuffled, nodes)[i]
            == shuffled[i],
{
}

} // verus!
