//! The rendezvous rooms: two peers that share a room identifier report
//! their addresses, and once both have finished each is handed the other's.
//!
//! [`State`] is the registry without its lock and without its clock. Every
//! method is one atomic step; whoever shares the registry between tasks
//! serialises the steps, and whoever keeps time calls
//! [`State::room_timeout`] once a room's time is up.

use crate::contact::{Contact, FullContact, SocketAddr};
use crate::error::Error;
use rand::seq::SliceRandom;
use std::collections::HashMap;
use vstd::prelude::*;

verus! {

broadcast use vstd::std_specs::hash::group_hash_axioms;

/// The identifier that the two peers of a room share.
pub type RoomId = [u8; 6];

/// Bytes in a room identifier.
pub const ROOM_ID_LEN: usize = 6;

/// Seconds after which a room that was not matched is evicted.
pub const ROOM_TIMEOUT_SECS: u64 = 600;

/// How many random identifiers [`State::create_room`] tries before it gives
/// up.
pub const CREATE_ROOM_ATTEMPTS: usize = 16;

/// Whether `b` is a capital letter or a digit.
pub open spec fn is_room_character(b: u8) -> bool {
    (0x41 <= b <= 0x5a) || (0x30 <= b <= 0x39)
}

/// The characters that room identifiers are drawn from: the capital
/// letters, then the digits.
pub open spec fn room_alphabet() -> Seq<u8> {
    seq![
        0x41u8, 0x42u8, 0x43u8, 0x44u8, 0x45u8, 0x46u8, 0x47u8, 0x48u8, 0x49u8,
        0x4au8, 0x4bu8, 0x4cu8, 0x4du8, 0x4eu8, 0x4fu8, 0x50u8, 0x51u8, 0x52u8,
        0x53u8, 0x54u8, 0x55u8, 0x56u8, 0x57u8, 0x58u8, 0x59u8, 0x5au8, 0x30u8,
        0x31u8, 0x32u8, 0x33u8, 0x34u8, 0x35u8, 0x36u8, 0x37u8, 0x38u8, 0x39u8,
    ]
}

/// The alphabet holds every capital letter and every digit, and nothing
/// else.
pub proof fn lemma_room_alphabet(b: u8)
    ensures
        is_room_character(b) <==> room_alphabet().contains(b),
{
    let alphabet = room_alphabet();
    if 0x41 <= b <= 0x5a {
        assert(alphabet[b - 0x41] == b);
    } else if 0x30 <= b <= 0x39 {
        assert(alphabet[26 + b - 0x30] == b);
    } else if alphabet.contains(b) {
        let i = choose|i: int| 0 <= i < alphabet.len() && alphabet[i] == b;
        assert(is_room_character(alphabet[i]));
    }
}

/// Whether `id` is six capital letters or digits.
pub open spec fn is_room_id(id: Seq<u8>) -> bool {
    &&& id.len() == ROOM_ID_LEN
    &&& forall|i: int| 0 <= i < id.len() ==> is_room_character(#[trigger] id[i])
}

/// The number under which the registry files the room `id`: the six bytes
/// read as one number, most significant byte first.
pub open spec fn room_key(id: Seq<u8>) -> u64 {
    ((id[0] as nat) * 0x100_0000_0000
        + (id[1] as nat) * 0x1_0000_0000
        + (id[2] as nat) * 0x100_0000
        + (id[3] as nat) * 0x1_0000
        + (id[4] as nat) * 0x100
        + (id[5] as nat)) as u64
}

/// Two numbers with the same last byte and the same rest are the same, and
/// the other way round.
proof fn lemma_last_byte(rest_a: int, last_a: int, rest_b: int, last_b: int)
    requires
        0 <= last_a < 0x100,
        0 <= last_b < 0x100,
        0x100 * rest_a + last_a == 0x100 * rest_b + last_b,
    ensures
        rest_a == rest_b,
        last_a == last_b,
{
}

/// No two identifiers are filed under the same number.
pub proof fn lemma_room_key_injective(a: Seq<u8>, b: Seq<u8>)
    requires
        a.len() == ROOM_ID_LEN,
        b.len() == ROOM_ID_LEN,
        room_key(a) == room_key(b),
    ensures
        a == b,
{
    let a1 = a[0] as int;
    let a2 = 0x100 * a1 + a[1] as int;
    let a3 = 0x100 * a2 + a[2] as int;
    let a4 = 0x100 * a3 + a[3] as int;
    let a5 = 0x100 * a4 + a[4] as int;
    let b1 = b[0] as int;
    let b2 = 0x100 * b1 + b[1] as int;
    let b3 = 0x100 * b2 + b[2] as int;
    let b4 = 0x100 * b3 + b[3] as int;
    let b5 = 0x100 * b4 + b[4] as int;
    assert(room_key(a) == 0x100 * a5 + a[5] as int);
    assert(room_key(b) == 0x100 * b5 + b[5] as int);
    lemma_last_byte(a5, a[5] as int, b5, b[5] as int);
    lemma_last_byte(a4, a[4] as int, b4, b[4] as int);
    lemma_last_byte(a3, a[3] as int, b3, b[3] as int);
    lemma_last_byte(a2, a[2] as int, b2, b[2] as int);
    lemma_last_byte(a1, a[1] as int, b1, b[1] as int);
    assert(a =~= b);
}

/// One of the two peers of a room: what it has reported of itself so far,
/// and the handle through which it waits for its peer, once it has
/// finished reporting.
pub struct Client<H> {
    pub contact: FullContact,
    pub waiting: Option<H>,
}

/// A room: the peer that created it and the peer that joins it.
pub struct Room<H> {
    pub creator: Client<H>,
    pub joiner: Client<H>,
}

/// What is owed to one peer of a matched room: through `handle`, the
/// addresses from which the service saw that peer itself, and everything
/// known of the other peer.
pub struct Delivery<H> {
    pub handle: H,
    pub own_public: Contact,
    pub peer: FullContact,
}

/// What came of a peer's announcement that it has finished reporting.
pub enum DoneOutcome<H> {
    /// The other peer has not finished: the handle waits in the room.
    Waiting,
    /// Both peers have finished. The room is gone, and these two deliveries
    /// are to be made.
    Matched { creator: Delivery<H>, joiner: Delivery<H> },
}

impl<H> Room<H> {
    /// A room of which nothing has been reported and in which nobody waits.
    pub open spec fn empty() -> Room<H> {
        Room {
            creator: Client { contact: FullContact::empty(), waiting: None },
            joiner: Client { contact: FullContact::empty(), waiting: None },
        }
    }

    /// The peer that a call speaks for.
    pub open spec fn client(self, is_creator: bool) -> Client<H> {
        if is_creator {
            self.creator
        } else {
            self.joiner
        }
    }

    /// The room after one peer reported `endpoint`. The other peer's record
    /// is untouched.
    pub open spec fn with_endpoint(
        self,
        is_creator: bool,
        endpoint: SocketAddr,
        public: bool,
    ) -> Room<H> {
        if is_creator {
            Room {
                creator: Client {
                    contact: self.creator.contact.with_endpoint(endpoint, public),
                    ..self.creator
                },
                ..self
            }
        } else {
            Room {
                joiner: Client {
                    contact: self.joiner.contact.with_endpoint(endpoint, public),
                    ..self.joiner
                },
                ..self
            }
        }
    }

    /// The room after one peer began to wait through `handle`, which takes
    /// the place of any handle that the same peer left earlier.
    pub open spec fn with_waiting(self, is_creator: bool, handle: H) -> Room<H> {
        if is_creator {
            Room { creator: Client { waiting: Some(handle), ..self.creator }, ..self }
        } else {
            Room { joiner: Client { waiting: Some(handle), ..self.joiner }, ..self }
        }
    }

    /// The two deliveries that are due once both peers wait: each peer gets
    /// its own public contact and all of the other's.
    pub open spec fn matched(self) -> DoneOutcome<H>
        recommends
            self.creator.waiting is Some,
            self.joiner.waiting is Some,
    {
        DoneOutcome::Matched {
            creator: Delivery {
                handle: self.creator.waiting->0,
                own_public: self.creator.contact.public,
                peer: self.joiner.contact,
            },
            joiner: Delivery {
                handle: self.joiner.waiting->0,
                own_public: self.joiner.contact.public,
                peer: self.creator.contact,
            },
        }
    }
}

/// The rooms after `room_id` was offered for a new room, and whether the
/// room was made: an identifier that is in use is turned down.
pub open spec fn inserted<H>(rooms: Map<Seq<u8>, Room<H>>, room_id: Seq<u8>) -> (
    Map<Seq<u8>, Room<H>>,
    bool,
) {
    if rooms.contains_key(room_id) {
        (rooms, false)
    } else {
        (rooms.insert(room_id, Room::empty()), true)
    }
}

/// The rooms after one peer of `room_id` reported `endpoint`, and the answer
/// to that peer.
pub open spec fn updated<H>(
    rooms: Map<Seq<u8>, Room<H>>,
    room_id: Seq<u8>,
    is_creator: bool,
    endpoint: SocketAddr,
    public: bool,
) -> (Map<Seq<u8>, Room<H>>, Result<(), Error>) {
    if rooms.contains_key(room_id) {
        (
            rooms.insert(room_id, rooms[room_id].with_endpoint(is_creator, endpoint, public)),
            Ok(()),
        )
    } else {
        (rooms, Err(Error::NoSuchRoom))
    }
}

/// The rooms after one peer of `room_id` announced through `handle` that it
/// has finished reporting, and the answer to that peer.
///
/// The handle is left in the room. If the other peer waits too, the room is
/// removed and both deliveries fall due; otherwise the room stays.
pub open spec fn done<H>(
    rooms: Map<Seq<u8>, Room<H>>,
    room_id: Seq<u8>,
    is_creator: bool,
    handle: H,
) -> (Map<Seq<u8>, Room<H>>, Result<DoneOutcome<H>, Error>) {
    if !rooms.contains_key(room_id) {
        (rooms, Err(Error::NoSuchRoom))
    } else {
        let room = rooms[room_id].with_waiting(is_creator, handle);
        if room.client(!is_creator).waiting is Some {
            (rooms.remove(room_id), Ok(room.matched()))
        } else {
            (rooms.insert(room_id, room), Ok(DoneOutcome::Waiting))
        }
    }
}

/// The alphabet of room identifiers.
fn room_characters() -> (r: [u8; 36])
    ensures
        r@ == room_alphabet(),
{
    let r: [u8; 36] =
    [
        0x41, 0x42, 0x43, 0x44, 0x45, 0x46, 0x47, 0x48, 0x49, 0x4a, 0x4b, 0x4c, 0x4d,
        0x4e, 0x4f, 0x50, 0x51, 0x52, 0x53, 0x54, 0x55, 0x56, 0x57, 0x58, 0x59, 0x5a,
        0x30, 0x31, 0x32, 0x33, 0x34, 0x35, 0x36, 0x37, 0x38, 0x39,
    ];
    assert(r@ =~= room_alphabet());
    r
}

/// Calls rand's `SliceRandom::choose` with the thread's generator.
///
/// Trusted: the outcome is one of the given bytes, or nothing if none was
/// given. Which one is left open.
#[verifier::external_body]
fn random_character(characters: &[u8]) -> (r: Option<u8>)
    ensures
        characters@.len() == 0 ==> r is None,
        characters@.len() > 0 ==> r is Some && characters@.contains(r->0),
{
    characters.choose(&mut rand::thread_rng()).copied()
}

/// A random room identifier: six characters, each drawn from the whole
/// alphabet of capital letters and digits.
pub fn generate_room_id() -> (id: RoomId)
    ensures
        is_room_id(id@),
{
    let characters = room_characters();
    let mut id: RoomId = [0x30, 0x30, 0x30, 0x30, 0x30, 0x30];
    let mut i: usize = 0;
    while i < ROOM_ID_LEN
        invariant
            i <= ROOM_ID_LEN,
            characters@ == room_alphabet(),
            forall|j: int| 0 <= j < id@.len() ==> is_room_character(#[trigger] id@[j]),
        decreases ROOM_ID_LEN - i,
    {
        let letter = random_character(characters.as_slice()).unwrap();
        proof {
            lemma_room_alphabet(letter);
        }
        id[i] = letter;
        i = i + 1;
    }
    id
}

/// The number under which the registry files `room_id`.
fn key_of(room_id: &RoomId) -> (key: u64)
    ensures
        key == room_key(room_id@),
{
    (room_id[0] as u64) * 0x100_0000_0000
        + (room_id[1] as u64) * 0x1_0000_0000
        + (room_id[2] as u64) * 0x100_0000
        + (room_id[3] as u64) * 0x1_0000
        + (room_id[4] as u64) * 0x100
        + (room_id[5] as u64)
}

/// The live rooms, by identifier. `H` is the handle through which a peer
/// waits to be told of its match; the registry stores handles and hands
/// them back, and does nothing else with them.
pub struct State<H> {
    rooms: HashMap<u64, Room<H>>,
}

impl<H> View for State<H> {
    type V = Map<Seq<u8>, Room<H>>;

    closed spec fn view(&self) -> Map<Seq<u8>, Room<H>> {
        Map::new(
            |id: Seq<u8>| id.len() == ROOM_ID_LEN && self.rooms@.contains_key(room_key(id)),
            |id: Seq<u8>| self.rooms@[room_key(id)],
        )
    }
}

impl<H> State<H> {
    /// A registry without rooms.
    pub fn new() -> (r: State<H>)
        ensures
            r@ == Map::<Seq<u8>, Room<H>>::empty(),
    {
        let r = State { rooms: HashMap::new() };
        assert(r@ =~= Map::<Seq<u8>, Room<H>>::empty());
        r
    }

    /// Whether `room_id` is the identifier of a live room.
    pub fn contains_room(&self, room_id: RoomId) -> (r: bool)
        ensures
            r == self@.contains_key(room_id@),
    {
        let key = key_of(&room_id);
        self.rooms.contains_key(&key)
    }

    /// Makes an empty room under `room_id`, unless that identifier is in
    /// use. Returns whether the room was made.
    pub fn insert_room(&mut self, room_id: RoomId) -> (r: bool)
        ensures
            final(self)@ == inserted(old(self)@, room_id@).0,
            r == inserted(old(self)@, room_id@).1,
    {
        let key = key_of(&room_id);
        if self.rooms.contains_key(&key) {
            return false;
        }
        let room = Room {
            creator: Client { contact: FullContact::default(), waiting: None },
            joiner: Client { contact: FullContact::default(), waiting: None },
        };
        self.rooms.insert(key, room);
        proof {
            self.lemma_view_insert(*old(self), room_id@, room);
        }
        true
    }

    /// Makes an empty room under a fresh random identifier and returns the
    /// identifier. The caller owes the room an eviction
    /// ([`room_timeout`](Self::room_timeout)) after [`ROOM_TIMEOUT_SECS`].
    ///
    /// An identifier that is in use is never handed out: another one is
    /// drawn. After [`CREATE_ROOM_ATTEMPTS`] draws that were all in use the
    /// call gives up and returns `None`, with the registry as it was. So
    /// the call succeeds whenever no identifier is in use.
    pub fn create_room(&mut self) -> (r: Option<RoomId>)
        ensures
            match r {
                Some(room_id) => {
                    &&& is_room_id(room_id@)
                    &&& inserted(old(self)@, room_id@) == (final(self)@, true)
                },
                None => {
                    &&& final(self)@ == old(self)@
                    &&& exists|id: Seq<u8>| is_room_id(id) && old(self)@.contains_key(id)
                },
            },
    {
        let mut attempts: usize = 0;
        while attempts < CREATE_ROOM_ATTEMPTS
            invariant
                self@ == old(self)@,
                attempts > 0 ==> exists|id: Seq<u8>| is_room_id(id) && old(self)@.contains_key(id),
            decreases CREATE_ROOM_ATTEMPTS - attempts,
        {
            let room_id = generate_room_id();
            if self.insert_room(room_id) {
                return Some(room_id);
            }
            assert(is_room_id(room_id@) && old(self)@.contains_key(room_id@));
            attempts = attempts + 1;
        }
        None
    }

    /// Records one address of one peer of the room: as seen by the service
    /// (`public`) or as told by the peer itself. The address takes the place
    /// of an earlier one of the same kind and family; nothing else changes.
    pub fn update_client(
        &mut self,
        room_id: RoomId,
        is_creator: bool,
        endpoint: SocketAddr,
        public: bool,
    ) -> (r: Result<(), Error>)
        ensures
            final(self)@ == updated(old(self)@, room_id@, is_creator, endpoint, public).0,
            r == updated(old(self)@, room_id@, is_creator, endpoint, public).1,
    {
        let key = key_of(&room_id);
        let mut room = match self.rooms.remove(&key) {
            None => {
                assert(self.rooms@ =~= old(self).rooms@);
                return Err(Error::NoSuchRoom);
            },
            Some(room) => room,
        };
        if is_creator {
            room.creator.contact.set_endpoint(endpoint, public);
        } else {
            room.joiner.contact.set_endpoint(endpoint, public);
        }
        self.rooms.insert(key, room);
        proof {
            assert(self.rooms@ =~= old(self).rooms@.insert(key, room));
            self.lemma_view_insert(*old(self), room_id@, room);
        }
        Ok(())
    }

    /// Records that one peer of the room has finished reporting and waits
    /// for its match through `handle`, which takes the place of any handle
    /// that the same peer left earlier.
    ///
    /// If the other peer waits too, the room is removed and the two
    /// deliveries are returned: the caller makes them. Otherwise the room
    /// stays and keeps the handle.
    pub fn set_client_done(&mut self, room_id: RoomId, is_creator: bool, handle: H) -> (r: Result<
        DoneOutcome<H>,
        Error,
    >)
        ensures
            final(self)@ == done(old(self)@, room_id@, is_creator, handle).0,
            r == done(old(self)@, room_id@, is_creator, handle).1,
    {
        let key = key_of(&room_id);
        let room = match self.rooms.remove(&key) {
            None => {
                assert(self.rooms@ =~= old(self).rooms@);
                return Err(Error::NoSuchRoom);
            },
            Some(room) => room,
        };
        proof {
            self.lemma_view_remove(*old(self), room_id@);
        }
        let Room { creator, joiner } = room;
        if is_creator {
            match joiner.waiting {
                Some(peer_handle) => Ok(
                    DoneOutcome::Matched {
                        creator: Delivery {
                            handle,
                            own_public: creator.contact.public,
                            peer: joiner.contact,
                        },
                        joiner: Delivery {
                            handle: peer_handle,
                            own_public: joiner.contact.public,
                            peer: creator.contact,
                        },
                    },
                ),
                None => {
                    let room = Room {
                        creator: Client { contact: creator.contact, waiting: Some(handle) },
                        joiner: Client { contact: joiner.contact, waiting: None },
                    };
                    let ghost before = *self;
                    self.rooms.insert(key, room);
                    proof {
                        self.lemma_view_insert(before, room_id@, room);
                        assert(self@ =~= old(self)@.insert(room_id@, room));
                    }
                    Ok(DoneOutcome::Waiting)
                },
            }
        } else {
            match creator.waiting {
                Some(peer_handle) => Ok(
                    DoneOutcome::Matched {
                        creator: Delivery {
                            handle: peer_handle,
                            own_public: creator.contact.public,
                            peer: joiner.contact,
                        },
                        joiner: Delivery {
                            handle,
                            own_public: joiner.contact.public,
                            peer: creator.contact,
                        },
                    },
                ),
                None => {
                    let room = Room {
                        creator: Client { contact: creator.contact, waiting: None },
                        joiner: Client { contact: joiner.contact, waiting: Some(handle) },
                    };
                    let ghost before = *self;
                    self.rooms.insert(key, room);
                    proof {
                        self.lemma_view_insert(before, room_id@, room);
                        assert(self@ =~= old(self)@.insert(room_id@, room));
                    }
                    Ok(DoneOutcome::Waiting)
                },
            }
        }
    }

    /// Evicts the room, whose time is up. Where the room is gone already,
    /// because it was matched, nothing happens.
    pub fn room_timeout(&mut self, room_id: RoomId)
        ensures
            final(self)@ == old(self)@.remove(room_id@),
    {
        let key = key_of(&room_id);
        let evicted = self.rooms.remove(&key);
        proof {
            self.lemma_view_remove(*old(self), room_id@);
        }
    }

    /// Filing a room under an identifier's number shows as that identifier's
    /// room, and as nothing else.
    proof fn lemma_view_insert(self, before: State<H>, room_id: Seq<u8>, room: Room<H>)
        requires
            room_id.len() == ROOM_ID_LEN,
            self.rooms@ == before.rooms@.insert(room_key(room_id), room),
        ensures
            self@ == before@.insert(room_id, room),
    {
        assert forall|id: Seq<u8>|
            id.len() == ROOM_ID_LEN && room_key(id) == room_key(room_id) implies id
            == room_id by {
            lemma_room_key_injective(id, room_id);
        }
        assert(self@ =~= before@.insert(room_id, room));
    }

    /// Taking out what is filed under an identifier's number shows as that
    /// identifier's room being gone, and as nothing else.
    proof fn lemma_view_remove(self, before: State<H>, room_id: Seq<u8>)
        requires
            room_id.len() == ROOM_ID_LEN,
            self.rooms@ == before.rooms@.remove(room_key(room_id)),
        ensures
            self@ == before@.remove(room_id),
    {
        assert forall|id: Seq<u8>|
            id.len() == ROOM_ID_LEN && room_key(id) == room_key(room_id) implies id
            == room_id by {
            lemma_room_key_injective(id, room_id);
        }
        assert(self@ =~= before@.remove(room_id));
    }
}

/// Whether `after` is `before` with one room more, made empty under the
/// identifier `room_id`, which was free: what [`State::create_room`] does
/// where it returns an identifier.
pub open spec fn created<H>(
    before: Map<Seq<u8>, Room<H>>,
    room_id: Seq<u8>,
    after: Map<Seq<u8>, Room<H>>,
) -> bool {
    is_room_id(room_id) && inserted(before, room_id) == (after, true)
}

/// A room that was created is still there after more rooms were created.
proof fn lemma_created_stays<H>(
    states: Seq<Map<Seq<u8>, Room<H>>>,
    ids: Seq<Seq<u8>>,
    i: int,
    j: int,
)
    requires
        states.len() == ids.len() + 1,
        forall|k: int| 0 <= k < ids.len() ==> created(states[k], #[trigger] ids[k], states[k + 1]),
        0 <= i < j <= ids.len(),
    ensures
        states[j].contains_key(ids[i]),
    decreases j - i,
{
    if j == i + 1 {
        assert(created(states[i], ids[i], states[i + 1]));
    } else {
        lemma_created_stays(states, ids, i, j - 1);
        assert(created(states[j - 1], ids[j - 1], states[j]));
    }
}

/// Rooms that are created one after the other, with no room removed in
/// between, get identifiers that differ from each other, and each is six
/// capital letters or digits.
pub proof fn lemma_created_rooms_differ<H>(
    states: Seq<Map<Seq<u8>, Room<H>>>,
    ids: Seq<Seq<u8>>,
    i: int,
    j: int,
)
    requires
        states.len() == ids.len() + 1,
        forall|k: int| 0 <= k < ids.len() ==> created(states[k], #[trigger] ids[k], states[k + 1]),
        0 <= i < j < ids.len(),
    ensures
        ids[i] != ids[j],
        is_room_id(ids[i]),
        is_room_id(ids[j]),
{
    lemma_created_stays(states, ids, i, j);
    assert(created(states[i], ids[i], states[i + 1]));
    assert(created(states[j], ids[j], states[j + 1]));
}

/// Two peers of a live room announce, in either order, that they have
/// finished. Then exactly one of the two announcements is answered with the
/// match, the room is gone afterwards, and no other room has changed. In the
/// match each peer is owed its own public contact and all of the other's.
///
/// If the peer that announces second had announced before, the first
/// announcement is matched with that earlier handle, and the second finds
/// the room gone. Otherwise the first announcement waits, and the second is
/// matched with it.
pub proof fn lemma_matched_exactly_once<H>(
    rooms: Map<Seq<u8>, Room<H>>,
    room_id: Seq<u8>,
    first_is_creator: bool,
    first: H,
    second: H,
)
    requires
        rooms.contains_key(room_id),
    ensures
        ({
            let room = rooms[room_id];
            let (rooms1, answer1) = done(rooms, room_id, first_is_creator, first);
            let (rooms2, answer2) = done(rooms1, room_id, !first_is_creator, second);
            let creator_now = if first_is_creator {
                first
            } else {
                second
            };
            let joiner_now = if first_is_creator {
                second
            } else {
                first
            };
            &&& rooms2 == rooms.remove(room_id)
            &&& if room.client(!first_is_creator).waiting is Some {
                &&& answer1 == Ok::<DoneOutcome<H>, Error>(
                    room.with_waiting(first_is_creator, first).matched(),
                )
                &&& answer2 == Err::<DoneOutcome<H>, Error>(Error::NoSuchRoom)
            } else {
                &&& answer1 == Ok::<DoneOutcome<H>, Error>(DoneOutcome::Waiting)
                &&& answer2 == Ok::<DoneOutcome<H>, Error>(
                    DoneOutcome::Matched {
                        creator: Delivery {
                            handle: creator_now,
                            own_public: room.creator.contact.public,
                            peer: room.joiner.contact,
                        },
                        joiner: Delivery {
                            handle: joiner_now,
                            own_public: room.joiner.contact.public,
                            peer: room.creator.contact,
                        },
                    },
                )
            }
        }),
{
    let (rooms1, answer1) = done(rooms, room_id, first_is_creator, first);
    let (rooms2, answer2) = done(rooms1, room_id, !first_is_creator, second);
    assert(rooms2 =~= rooms.remove(room_id));
}

/// A public IPv4 address and then a private IPv6 address, reported for the
/// same peer of a live room, are both on that peer's record afterwards.
/// Nothing else on the record has changed, and neither has the other peer's
/// record nor any other room.
pub proof fn lemma_contacts_accumulate<H>(
    rooms: Map<Seq<u8>, Room<H>>,
    room_id: Seq<u8>,
    is_creator: bool,
    public_v4: crate::contact::SocketAddrV4,
    private_v6: crate::contact::SocketAddrV6,
)
    requires
        rooms.contains_key(room_id),
    ensures
        ({
            let (rooms1, answer1) = updated(
                rooms,
                room_id,
                is_creator,
                SocketAddr::V4(public_v4),
                true,
            );
            let (rooms2, answer2) = updated(
                rooms1,
                room_id,
                is_creator,
                SocketAddr::V6(private_v6),
                false,
            );
            let before = rooms[room_id].client(is_creator);
            let after = rooms2[room_id].client(is_creator);
            &&& answer1 is Ok
            &&& answer2 is Ok
            &&& rooms2.contains_key(room_id)
            &&& after.contact.public.v4 == Some(public_v4)
            &&& after.contact.private.v6 == Some(private_v6)
            &&& after.contact.public.v6 == before.contact.public.v6
            &&& after.contact.private.v4 == before.contact.private.v4
            &&& after.waiting == before.waiting
            &&& rooms2[room_id].client(!is_creator) == rooms[room_id].client(!is_creator)
            &&& rooms2.remove(room_id) == rooms.remove(room_id)
        }),
{
    let (rooms1, answer1) = updated(rooms, room_id, is_creator, SocketAddr::V4(public_v4), true);
    let (rooms2, answer2) = updated(
        rooms1,
        room_id,
        is_creator,
        SocketAddr::V6(private_v6),
        false,
    );
    assert(rooms2.remove(room_id) =~= rooms.remove(room_id));
}

/// A room that was evicted is gone: whoever reports an address for it or
/// announces that it has finished is told that there is no such room, and
/// the registry stays as it is.
pub proof fn lemma_evicted_room_is_gone<H>(
    rooms: Map<Seq<u8>, Room<H>>,
    room_id: Seq<u8>,
    is_creator: bool,
    handle: H,
    endpoint: SocketAddr,
    public: bool,
)
    ensures
        ({
            let evicted = rooms.remove(room_id);
            &&& !evicted.contains_key(room_id)
            &&& done(evicted, room_id, is_creator, handle) == (
                evicted,
                Err::<DoneOutcome<H>, Error>(Error::NoSuchRoom),
            )
            &&& updated(evicted, room_id, is_creator, endpoint, public) == (
                evicted,
                Err::<(), Error>(Error::NoSuchRoom),
            )
        }),
{
}

} // verus!
