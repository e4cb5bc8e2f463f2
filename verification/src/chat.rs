use vstd::prelude::*;

use crate::parse::{chars_of, push_char};
use crate::prime::str_eq;

verus! {

/// The longest name that a client can take.
pub const MAX_NAME_LENGTH: usize = 32;

/// The most connections that the server keeps at once.
pub const MAX_CONNECTIONS: usize = 64;

/// The state of a chat room: the names of the joined clients, in the order in which they
/// joined, and the number of open connections.
pub struct ServerContext {
    joined_clients: Vec<String>,
    connections: usize,
}

/// A message for one client.
#[derive(Debug)]
pub struct Outgoing {
    pub recipient: String,
    pub message: String,
}

/// The model of a chat room.
pub struct RoomView {
    pub names: Seq<Seq<char>>,
    pub connections: nat,
}

impl View for ServerContext {
    type V = RoomView;

    closed spec fn view(&self) -> RoomView {
        RoomView {
            names: self.joined_clients@.map_values(|s: String| s@),
            connections: self.connections as nat,
        }
    }
}

/// The model of a sequence of outgoing messages: pairs of recipient and message.
pub open spec fn outgoing_view(out: Seq<Outgoing>) -> Seq<(Seq<char>, Seq<char>)> {
    out.map_values(|o: Outgoing| (o.recipient@, o.message@))
}

/// Whether no name occurs twice.
pub open spec fn distinct_names(names: Seq<Seq<char>>) -> bool {
    forall|i: int, j: int| 0 <= i < j < names.len() ==> #[trigger] names[i] != #[trigger] names[j]
}

/// An ASCII letter or digit.
pub open spec fn is_ascii_alphanumeric(c: char) -> bool {
    ('0' <= c && c <= '9') || ('a' <= c && c <= 'z') || ('A' <= c && c <= 'Z')
}

/// Whether a client can join under `name`: it has one to 32 characters, all ASCII letters or
/// digits, and no joined client has it.
pub open spec fn spec_valid_name(room: RoomView, name: Seq<char>) -> bool {
    &&& 0 < name.len() <= MAX_NAME_LENGTH
    &&& forall|i: int| 0 <= i < name.len() ==> is_ascii_alphanumeric(#[trigger] name[i])
    &&& !room.names.contains(name)
}

/// The names, separated by a comma and a space.
pub open spec fn names_text(names: Seq<Seq<char>>) -> Seq<char>
    decreases names.len(),
{
    if names.len() == 0 {
        Seq::empty()
    } else if names.len() == 1 {
        names[0]
    } else {
        names_text(names.drop_last()) + ", "@ + names.last()
    }
}

/// The message to every joined client but `exclude`, in the order in which they joined.
pub open spec fn broadcast_view(names: Seq<Seq<char>>, message: Seq<char>, exclude: Option<Seq<char>>) -> Seq<(Seq<char>, Seq<char>)>
    decreases names.len(),
{
    if names.len() == 0 {
        Seq::empty()
    } else {
        let rest = broadcast_view(names.drop_last(), message, exclude);
        if exclude == Some(names.last()) {
            rest
        } else {
            rest.push((names.last(), message))
        }
    }
}

/// The message that tells a new client who is in the room.
pub open spec fn room_contains_message(names: Seq<Seq<char>>) -> Seq<char> {
    "* The room contains: "@ + names_text(names) + "\n"@
}

/// The message that tells the room that a client joined.
pub open spec fn entered_message(name: Seq<char>) -> Seq<char> {
    "* "@ + name + " has entered the room\n"@
}

/// The message that tells the room that a client left.
pub open spec fn left_message(name: Seq<char>) -> Seq<char> {
    "* "@ + name + " has left the room\n"@
}

/// A chat message as the other clients see it.
pub open spec fn chat_message(name: Seq<char>, message: Seq<char>) -> Seq<char> {
    "["@ + name + "] "@ + message + "\n"@
}

/// The names after `name` joined: a name that is already there keeps its place.
pub open spec fn names_after_join(names: Seq<Seq<char>>, name: Seq<char>) -> Seq<Seq<char>> {
    if names.contains(name) {
        names
    } else {
        names.push(name)
    }
}

/// The names after `name` left.
pub open spec fn names_after_leave(names: Seq<Seq<char>>, name: Seq<char>) -> Seq<Seq<char>> {
    if names.contains(name) {
        names.remove(choose|i: int| 0 <= i < names.len() && #[trigger] names[i] == name)
    } else {
        names
    }
}

/// A name given on a line: the line without its trailing newlines.
pub open spec fn spec_name_from_line(line: Seq<char>) -> Seq<char>
    decreases line.len(),
{
    if line.len() > 0 && line.last() == '\n' {
        spec_name_from_line(line.drop_last())
    } else {
        line
    }
}

impl ServerContext {
    #[verifier::type_invariant]
    spec fn well_formed(self) -> bool {
        &&& distinct_names(self@.names)
        &&& self.connections <= MAX_CONNECTIONS
    }

    /// An empty room with no connections.
    pub fn new() -> (r: ServerContext)
        ensures
            r@.names == Seq::<Seq<char>>::empty(),
            r@.connections == 0,
    {
        let r = ServerContext { joined_clients: Vec::new(), connections: 0 };
        assert(r@.names =~= Seq::<Seq<char>>::empty());
        r
    }

    /// The names of the joined clients, separated by a comma and a space.
    pub fn get_name_string(&self) -> (r: String)
        ensures
            r@ == names_text(self@.names),
    {
        let ghost names = self@.names;
        let mut out = String::new();
        let mut i: usize = 0;
        while i < self.joined_clients.len()
            invariant
                i <= self.joined_clients@.len(),
                names == self@.names,
                names.len() == self.joined_clients@.len(),
                forall|k: int| 0 <= k < names.len() ==> #[trigger] names[k] == self.joined_clients@[k]@,
                out@ == names_text(names.take(i as int)),
            decreases self.joined_clients@.len() - i,
        {
            if i > 0 {
                out.append(", ");
            }
            out.append(self.joined_clients[i].as_str());
            proof {
                assert(names.take(i + 1).drop_last() =~= names.take(i as int));
                if i == 0 {
                    assert(names.take(0) =~= Seq::<Seq<char>>::empty());
                }
            }
            i += 1;
            assert(out@ =~= names_text(names.take(i as int)));
        }
        assert(names.take(names.len() as int) =~= names);
        out
    }

    fn contains_name(&self, name: &str) -> (r: bool)
        ensures
            r == self@.names.contains(name@),
    {
        let mut i: usize = 0;
        while i < self.joined_clients.len()
            invariant
                i <= self.joined_clients@.len(),
                self@.names.len() == self.joined_clients@.len(),
                forall|k: int| 0 <= k < self@.names.len() ==> #[trigger] self@.names[k] == self.joined_clients@[k]@,
                forall|k: int| 0 <= k < i ==> self@.names[k] != name@,
            decreases self.joined_clients@.len() - i,
        {
            if str_eq(self.joined_clients[i].as_str(), name) {
                assert(self@.names[i as int] == name@);
                return true;
            }
            i += 1;
        }
        false
    }

    /// Whether a client can join under `name`, as [`spec_valid_name`] says.
    pub fn is_valid_name(&self, name: &str) -> (r: bool)
        ensures
            r == spec_valid_name(self@, name@),
    {
        let chars = chars_of(name);
        if chars.len() == 0 || chars.len() > MAX_NAME_LENGTH {
            return false;
        }
        let mut i: usize = 0;
        while i < chars.len()
            invariant
                i <= chars@.len(),
                chars@ == name@,
                forall|k: int| 0 <= k < i ==> is_ascii_alphanumeric(#[trigger] chars@[k]),
            decreases chars@.len() - i,
        {
            let c = chars[i];
            if !(('0' <= c && c <= '9') || ('a' <= c && c <= 'z') || ('A' <= c && c <= 'Z')) {
                return false;
            }
            i += 1;
        }
        !self.contains_name(name)
    }

    /// The message to every joined client but `exclude_name`.
    pub fn broadcast(&self, message: &str, exclude_name: Option<&str>) -> (r: Vec<Outgoing>)
        ensures
            outgoing_view(r@) == broadcast_view(
                self@.names,
                message@,
                match exclude_name {
                    Some(n) => Some(n@),
                    None => None,
                },
            ),
    {
        let ghost names = self@.names;
        let ghost exclude = match exclude_name {
            Some(n) => Some(n@),
            None => None,
        };
        let mut out: Vec<Outgoing> = Vec::new();
        let mut i: usize = 0;
        while i < self.joined_clients.len()
            invariant
                i <= self.joined_clients@.len(),
                names == self@.names,
                names.len() == self.joined_clients@.len(),
                forall|k: int| 0 <= k < names.len() ==> #[trigger] names[k] == self.joined_clients@[k]@,
                exclude == match exclude_name {
                    Some(n) => Some(n@),
                    None => None::<Seq<char>>,
                },
                outgoing_view(out@) == broadcast_view(names.take(i as int), message@, exclude),
            decreases self.joined_clients@.len() - i,
        {
            let skip = match exclude_name {
                Some(n) => str_eq(n, self.joined_clients[i].as_str()),
                None => false,
            };
            proof {
                assert(names.take(i + 1).drop_last() =~= names.take(i as int));
            }
            let ghost before = out@;
            if !skip {
                let recipient = self.joined_clients[i].clone();
                out.push(Outgoing { recipient, message: String::from_str(message) });
                assert(outgoing_view(out@) =~= outgoing_view(before).push((names[i as int], message@)));
            }
            i += 1;
        }
        assert(names.take(names.len() as int) =~= names);
        out
    }
}

impl ServerContext {
    fn message_text(prefix: &str, name: &str, suffix: &str) -> (r: String)
        ensures
            r@ == prefix@ + name@ + suffix@,
    {
        let mut out = String::from_str(prefix);
        out.append(name);
        out.append(suffix);
        out
    }

    /// Lets a client join under `name`: the client is told who is in the room, the clients
    /// already in it are told that it entered, and then it is in the room. The messages come
    /// in that order.
    pub fn add_client(&mut self, name: &str) -> (r: Vec<Outgoing>)
        ensures
            outgoing_view(r@) == seq![(name@, room_contains_message(old(self)@.names))]
                + broadcast_view(old(self)@.names, entered_message(name@), None),
            final(self)@.names == names_after_join(old(self)@.names, name@),
            final(self)@.connections == old(self)@.connections,
    {
        proof {
            use_type_invariant(&*self);
        }
        let names = self.get_name_string();
        let contains = Self::message_text("* The room contains: ", names.as_str(), "\n");
        let mut out: Vec<Outgoing> = Vec::new();
        out.push(Outgoing { recipient: String::from_str(name), message: contains });
        let join_message = Self::message_text("* ", name, " has entered the room\n");
        let mut others = self.broadcast(join_message.as_str(), None);
        let ghost first = out@;
        let ghost rest = others@;
        out.append(&mut others);
        assert(outgoing_view(out@) =~= outgoing_view(first) + outgoing_view(rest));
        assert(outgoing_view(first) =~= seq![(name@, room_contains_message(old(self)@.names))]);
        if !self.contains_name(name) {
            let ghost before = self.joined_clients@;
            let mut list: Vec<String> = Vec::new();
            std::mem::swap(&mut list, &mut self.joined_clients);
            list.push(String::from_str(name));
            assert(list@.map_values(|s: String| s@) =~= before.map_values(|s: String| s@).push(name@));
            self.joined_clients = list;
        }
        out
    }

    /// The message of client `name` to every other client.
    pub fn handle_client_message(&self, name: &str, message: &str) -> (r: Vec<Outgoing>)
        ensures
            outgoing_view(r@) == broadcast_view(self@.names, chat_message(name@, message@), Some(name@)),
    {
        let mut text = Self::message_text("[", name, "] ");
        text.append(message);
        text.append("\n");
        self.broadcast(text.as_str(), Some(name))
    }

    /// Removes client `name`, if it is in the room, and tells the others that it left.
    pub fn remove_client(&mut self, name: &str) -> (r: Vec<Outgoing>)
        ensures
            old(self)@.names.contains(name@) ==> {
                &&& final(self)@.names == names_after_leave(old(self)@.names, name@)
                &&& outgoing_view(r@) == broadcast_view(final(self)@.names, left_message(name@), None)
            },
            !old(self)@.names.contains(name@) ==> final(self)@.names == old(self)@.names && r@.len() == 0,
            final(self)@.connections == old(self)@.connections,
    {
        proof {
            use_type_invariant(&*self);
        }
        let ghost names = self@.names;
        let mut i: usize = 0;
        while i < self.joined_clients.len()
            invariant
                i <= self.joined_clients@.len(),
                names == self@.names,
                distinct_names(names),
                names.len() == self.joined_clients@.len(),
                forall|k: int| 0 <= k < names.len() ==> #[trigger] names[k] == self.joined_clients@[k]@,
                forall|k: int| 0 <= k < i ==> names[k] != name@,
                self.connections == old(self).connections,
                self.connections <= MAX_CONNECTIONS,
                names == old(self)@.names,
            decreases self.joined_clients@.len() - i,
        {
            if str_eq(self.joined_clients[i].as_str(), name) {
                let ghost before = self.joined_clients@;
                proof {
                    assert(names[i as int] == name@);
                    let k = choose|k: int| 0 <= k < names.len() && #[trigger] names[k] == name@;
                    assert(k == i);
                    assert(names_after_leave(names, name@) == names.remove(i as int));
                }
                let mut list: Vec<String> = Vec::new();
                std::mem::swap(&mut list, &mut self.joined_clients);
                let _removed = list.remove(i);
                assert(list@.map_values(|s: String| s@) =~= names.remove(i as int));
                self.joined_clients = list;
                let text = Self::message_text("* ", name, " has left the room\n");
                return self.broadcast(text.as_str(), None);
            }
            i += 1;
        }
        assert(!names.contains(name@));
        Vec::new()
    }

    /// Admits one more connection, unless the room already has the most that it keeps.
    pub fn try_open_connection(&mut self) -> (r: bool)
        ensures
            r == (old(self)@.connections < MAX_CONNECTIONS),
            final(self)@.connections == if r {
                old(self)@.connections + 1
            } else {
                old(self)@.connections
            },
            final(self)@.names == old(self)@.names,
    {
        proof {
            use_type_invariant(&*self);
        }
        if self.connections >= MAX_CONNECTIONS {
            false
        } else {
            self.connections = self.connections + 1;
            true
        }
    }

    /// The number of open connections.
    pub fn connections(&self) -> (r: usize)
        ensures
            r == self@.connections,
    {
        self.connections
    }

    /// Releases a connection.
    pub fn close_connection(&mut self)
        requires
            old(self)@.connections > 0,
        ensures
            final(self)@.connections == old(self)@.connections - 1,
            final(self)@.names == old(self)@.names,
    {
        proof {
            use_type_invariant(&*self);
        }
        self.connections = self.connections - 1;
    }
}

/// The name that a client gives on its first line, as [`spec_name_from_line`] says.
pub fn name_from_line(line: &str) -> (r: String)
    ensures
        r@ == spec_name_from_line(line@),
{
    let chars = chars_of(line);
    let mut end = chars.len();
    assert(chars@.take(end as int) =~= chars@);
    while end > 0 && chars[end - 1] == '\n'
        invariant
            end <= chars@.len(),
            chars@ == line@,
            spec_name_from_line(line@) == spec_name_from_line(chars@.take(end as int)),
        decreases end,
    {
        assert(chars@.take(end as int).drop_last() =~= chars@.take(end - 1));
        end -= 1;
    }
    let mut out = String::new();
    let mut i: usize = 0;
    while i < end
        invariant
            i <= end <= chars@.len(),
            out@ == chars@.take(i as int),
        decreases end - i,
    {
        push_char(&mut out, chars[i]);
        i += 1;
        assert(out@ =~= chars@.take(i as int));
    }
    out
}

/// A line of a client without its final newline byte, if it has one.
pub fn strip_newline(bytes: &mut Vec<u8>)
    ensures
        old(bytes)@.len() > 0 && old(bytes)@.last() == 10 ==> final(bytes)@ == old(bytes)@.drop_last(),
        !(old(bytes)@.len() > 0 && old(bytes)@.last() == 10) ==> final(bytes)@ == old(bytes)@,
{
    if bytes.len() > 0 && bytes[bytes.len() - 1] == 10 {
        bytes.pop();
    }
}

/// The names that a broadcast goes to: the joined ones other than `exclude`, in order.
pub open spec fn recipients(names: Seq<Seq<char>>, exclude: Option<Seq<char>>) -> Seq<Seq<char>>
    decreases names.len(),
{
    if names.len() == 0 {
        Seq::empty()
    } else if exclude == Some(names.last()) {
        recipients(names.drop_last(), exclude)
    } else {
        recipients(names.drop_last(), exclude).push(names.last())
    }
}

/// A broadcast carries the same message to each of the joined clients other than the
/// excluded one, once each, in the order in which they joined, and never to the excluded one.
pub proof fn lemma_broadcast_reaches_others(names: Seq<Seq<char>>, message: Seq<char>, exclude: Option<Seq<char>>)
    ensures
        broadcast_view(names, message, exclude).len() == recipients(names, exclude).len(),
        forall|k: int| 0 <= k < broadcast_view(names, message, exclude).len() ==> #[trigger] broadcast_view(names, message, exclude)[k] == (recipients(names, exclude)[k], message),
        forall|k: int| 0 <= k < recipients(names, exclude).len() ==> Some(#[trigger] recipients(names, exclude)[k]) != exclude && names.contains(recipients(names, exclude)[k]),
        forall|n: Seq<char>| names.contains(n) && Some(n) != exclude ==> #[trigger] recipients(names, exclude).contains(n),
    decreases names.len(),
{
    if names.len() > 0 {
        let init = names.drop_last();
        lemma_broadcast_reaches_others(init, message, exclude);
        let r = recipients(names, exclude);
        let ri = recipients(init, exclude);
        assert forall|k: int| 0 <= k < r.len() implies Some(#[trigger] r[k]) != exclude && names.contains(r[k]) by {
            if k < ri.len() {
                assert(r[k] == ri[k]);
                assert(init.contains(ri[k]));
                let j = choose|j: int| 0 <= j < init.len() && init[j] == ri[k];
                assert(names[j] == ri[k]);
            } else {
                assert(r[k] == names.last());
            }
        }
        assert forall|n: Seq<char>| names.contains(n) && Some(n) != exclude implies #[trigger] r.contains(n) by {
            let j = choose|j: int| 0 <= j < names.len() && names[j] == n;
            if j < init.len() {
                assert(init[j] == n);
                assert(init.contains(n));
                assert(ri.contains(n));
                let k = choose|k: int| 0 <= k < ri.len() && ri[k] == n;
                assert(r[k] == ri[k]);
                assert(r[k] == n);
            } else {
                assert(r[r.len() - 1] == n);
            }
        }
    }
}

/// A client that joins under a valid name is in the room afterwards, after the clients that
/// were there, and the names stay distinct.
pub proof fn lemma_join_adds_name(names: Seq<Seq<char>>, name: Seq<char>)
    requires
        distinct_names(names),
        !names.contains(name),
    ensures
        names_after_join(names, name) == names.push(name),
        distinct_names(names_after_join(names, name)),
{
    let after = names.push(name);
    assert forall|i: int, j: int| 0 <= i < j < after.len() implies #[trigger] after[i] != #[trigger] after[j] by {
        if j == names.len() {
            assert(names.contains(after[i]));
        }
    }
}

/// A client that leaves is no longer in the room, and the others stay, in order.
pub proof fn lemma_leave_removes_name(names: Seq<Seq<char>>, name: Seq<char>)
    requires
        distinct_names(names),
        names.contains(name),
    ensures
        !names_after_leave(names, name).contains(name),
        names_after_leave(names, name).len() == names.len() - 1,
        forall|n: Seq<char>| n != name ==> (#[trigger] names_after_leave(names, name).contains(n) <==> names.contains(n)),
{
    let i = choose|i: int| 0 <= i < names.len() && #[trigger] names[i] == name;
    let after = names.remove(i);
    assert(names_after_leave(names, name) == after);
    if after.contains(name) {
        let k = choose|k: int| 0 <= k < after.len() && after[k] == name;
        if k < i {
            assert(names[k] == name);
        } else {
            assert(names[k + 1] == name);
        }
    }
    assert forall|n: Seq<char>| n != name implies (#[trigger] after.contains(n) <==> names.contains(n)) by {
        if after.contains(n) {
            let k = choose|k: int| 0 <= k < after.len() && after[k] == n;
            if k < i {
                assert(names[k] == n);
            } else {
                assert(names[k + 1] == n);
            }
        }
        if names.contains(n) {
            let k = choose|k: int| 0 <= k < names.len() && names[k] == n;
            if k < i {
                assert(after[k] == n);
            } else if k > i {
                assert(after[k - 1] == n);
            }
        }
    }
}

proof fn lemma_alphanumeric_codes(c: char)
    ensures
        is_ascii_alphanumeric(c) <==> {
            let u = c as u32;
            (48 <= u <= 57) || (65 <= u <= 90) || (97 <= u <= 122)
        },
{
}

/// A name is accepted exactly when it has one to 32 characters, each an ASCII digit (code
/// points 48 to 57), capital letter (65 to 90) or small letter (97 to 122), and no client in
/// the room has it. So every one-character name made of such a character is accepted in a
/// room where nobody has it.
pub proof fn lemma_valid_names(room: RoomView, name: Seq<char>)
    ensures
        spec_valid_name(room, name) <==> {
            &&& 1 <= name.len() <= 32
            &&& forall|i: int|
                0 <= i < name.len() ==> {
                    let u = #[trigger] name[i] as u32;
                    (48 <= u <= 57) || (65 <= u <= 90) || (97 <= u <= 122)
                }
            &&& !room.names.contains(name)
        },
        forall|c: char|
            {
                let u = c as u32;
                (48 <= u <= 57) || (65 <= u <= 90) || (97 <= u <= 122)
            } && !room.names.contains(seq![c]) ==> #[trigger] spec_valid_name(room, seq![c]),
{
    assert forall|i: int| 0 <= i < name.len() implies is_ascii_alphanumeric(#[trigger] name[i]) == {
        let u = name[i] as u32;
        (48 <= u <= 57) || (65 <= u <= 90) || (97 <= u <= 122)
    } by {
        lemma_alphanumeric_codes(name[i]);
    }
    assert forall|c: char|
        {
            let u = c as u32;
            (48 <= u <= 57) || (65 <= u <= 90) || (97 <= u <= 122)
        } && !room.names.contains(seq![c]) implies #[trigger] spec_valid_name(room, seq![c]) by {
        assert(seq![c][0] == c);
        lemma_alphanumeric_codes(c);
    }
}

} // verus!
