//! The MIDI clients that are connected, and the devices behind them.
use std::collections::HashMap;
use vstd::prelude::*;

verus! {

/// The separator of a path.
pub const SLASH: u8 = 0x2f;

/// A component that stands for the directory it is in.
pub const DOT: u8 = 0x2e;

/// How far it is to the first separator, or to the end of the path.
pub open spec fn piece_len(path: Seq<u8>) -> nat
    decreases path.len(),
{
    if path.len() == 0 || path[0] == SLASH {
        0
    } else {
        1 + piece_len(path.skip(1))
    }
}

/// The piece is a component of its path: it is neither empty nor a dot.
pub open spec fn counts(piece: Seq<u8>) -> bool {
    piece.len() > 0 && piece != seq![DOT]
}

/// The components of a path behind its start: what stands between separators,
/// without the pieces that do not count.
pub open spec fn components(path: Seq<u8>) -> Seq<Seq<u8>>
    decreases path.len(),
{
    let len = piece_len(path);
    if path.len() == 0 {
        Seq::empty()
    } else {
        let piece = path.take(len as int);
        let rest = if len < path.len() {
            components(path.skip(len as int + 1))
        } else {
            Seq::empty()
        };
        if counts(piece) {
            seq![piece] + rest
        } else {
            rest
        }
    }
}

/// What two spellings of a path have in common: whether it starts at the root,
/// whether it starts with a dot, and its components.
#[verifier::ext_equal]
pub struct PathKey {
    pub rooted: bool,
    pub dotted: bool,
    pub components: Seq<Seq<u8>>,
}

/// The path that a name spells.
pub open spec fn path_key(name: Seq<u8>) -> PathKey {
    PathKey {
        rooted: name.len() > 0 && name[0] == SLASH,
        dotted: name.len() > 0 && name[0] == DOT && (name.len() == 1 || name[1] == SLASH),
        components: components(name),
    }
}

/// A piece ends inside its path.
proof fn lemma_piece_len(path: Seq<u8>)
    ensures
        piece_len(path) <= path.len(),
    decreases path.len(),
{
    if path.len() > 0 && path[0] != SLASH {
        lemma_piece_len(path.skip(1));
    }
}

/// Where the piece of `name` from `from` on ends.
fn piece_end(name: &Vec<u8>, from: usize) -> (end: usize)
    requires
        from <= name@.len(),
    ensures
        from <= end <= name@.len(),
        end == from + piece_len(name@.skip(from as int)),
{
    let mut end: usize = from;
    proof {
        lemma_piece_len(name@.skip(from as int));
    }
    while end < name.len() && name[end] != SLASH
        invariant
            from <= end <= name@.len(),
            from + piece_len(name@.skip(from as int)) == end + piece_len(name@.skip(end as int)),
        decreases name@.len() - end,
    {
        assert(name@.skip(end as int).skip(1) =~= name@.skip(end + 1));
        assert(name@.skip(end as int)[0] == name@[end as int]);
        end = end + 1;
    }
    assert(end < name@.len() ==> name@.skip(end as int)[0] == name@[end as int]);
    end
}

/// The bytes of `name` from `from` to before `end`.
fn copy_range(name: &Vec<u8>, from: usize, end: usize) -> (copy: Vec<u8>)
    requires
        from <= end <= name@.len(),
    ensures
        copy@ == name@.subrange(from as int, end as int),
{
    let mut copy: Vec<u8> = Vec::new();
    let mut i: usize = from;
    assert(name@.subrange(from as int, from as int) =~= Seq::<u8>::empty());
    while i < end
        invariant
            from <= i <= end <= name@.len(),
            copy@ == name@.subrange(from as int, i as int),
        decreases end - i,
    {
        copy.push(name[i]);
        assert(copy@ =~= name@.subrange(from as int, i + 1));
        i = i + 1;
    }
    copy
}

/// The components of the path that a name spells.
fn components_of(name: &Vec<u8>) -> (parts: Vec<Vec<u8>>)
    ensures
        name_texts(parts@) == components(name@),
{
    let mut parts: Vec<Vec<u8>> = Vec::new();
    let mut from: usize = 0;
    assert(name@.skip(0) =~= name@);
    assert(name_texts(parts@) + components(name@) =~= components(name@));
    while from < name.len()
        invariant
            from <= name@.len(),
            name_texts(parts@) + components(name@.skip(from as int)) == components(name@),
        decreases name@.len() - from,
    {
        let ghost rest = name@.skip(from as int);
        let ghost earlier = name_texts(parts@);
        let end = piece_end(name, from);
        let part = copy_range(name, from, end);
        assert(rest.take(end - from) =~= part@);
        let ghost after = if end < name@.len() {
            components(name@.skip(end + 1))
        } else {
            Seq::empty()
        };
        assert(end < name@.len() ==> rest.skip(end - from + 1) =~= name@.skip(end + 1));
        let dot = part.len() == 1 && part[0] == DOT;
        assert(dot ==> part@ =~= seq![DOT]);
        if part.len() > 0 && !dot {
            assert(counts(part@));
            assert(components(rest) == seq![part@] + after);
            parts.push(part);
            assert(name_texts(parts@) =~= earlier.push(parts@.last()@));
            assert(name_texts(parts@) + after =~= earlier + components(rest));
        } else {
            assert(components(rest) == after);
        }
        if end < name.len() {
            from = end + 1;
        } else {
            from = end;
            assert(name@.skip(from as int) =~= Seq::<u8>::empty());
        }
    }
    assert(name@.skip(from as int) =~= Seq::<u8>::empty());
    assert(name_texts(parts@) + Seq::<Seq<u8>>::empty() =~= name_texts(parts@));
    parts
}

/// Whether two lists of components are the same.
fn same_parts(a: &Vec<Vec<u8>>, b: &Vec<Vec<u8>>) -> (same: bool)
    ensures
        same == (name_texts(a@) == name_texts(b@)),
{
    if a.len() != b.len() {
        assert(name_texts(a@).len() != name_texts(b@).len());
        return false;
    }
    let mut i: usize = 0;
    while i < a.len()
        invariant
            i <= a@.len(),
            a@.len() == b@.len(),
            forall|k: int| 0 <= k < i ==> #[trigger] name_texts(a@)[k] == name_texts(b@)[k],
        decreases a@.len() - i,
    {
        assert(name_texts(a@)[i as int] == a@[i as int]@);
        assert(name_texts(b@)[i as int] == b@[i as int]@);
        if !same_bytes(&a[i], &b[i]) {
            return false;
        }
        i = i + 1;
    }
    assert(name_texts(a@) =~= name_texts(b@));
    true
}

/// Whether two names spell the same path.
pub fn same_path(a: &Vec<u8>, b: &Vec<u8>) -> (same: bool)
    ensures
        same == (path_key(a@) == path_key(b@)),
{
    let same_root = (a.len() > 0 && a[0] == SLASH) == (b.len() > 0 && b[0] == SLASH);
    let same_dot = (a.len() > 0 && a[0] == DOT && (a.len() == 1 || a[1] == SLASH)) == (b.len() > 0
        && b[0] == DOT && (b.len() == 1 || b[1] == SLASH));
    same_root && same_dot && same_parts(&components_of(a), &components_of(b))
}

/// Where a path stands for the first time from `from` on.
spec fn entry_of(entries: Seq<(Vec<u8>, i32)>, key: PathKey, from: int) -> Option<int>
    decreases entries.len() - from,
{
    if from >= entries.len() {
        None
    } else if path_key(entries[from].0@) == key {
        Some(from)
    } else {
        entry_of(entries, key, from + 1)
    }
}

/// Names decide where a path stands, clients do not.
proof fn lemma_same_names(
    a: Seq<(Vec<u8>, i32)>,
    b: Seq<(Vec<u8>, i32)>,
    key: PathKey,
    from: int,
)
    requires
        a.len() == b.len(),
        forall|i: int| 0 <= i < a.len() ==> (#[trigger] a[i]).0@ == b[i].0@,
        0 <= from,
    ensures
        entry_of(a, key, from) == entry_of(b, key, from),
    decreases a.len() - from,
{
    if from < a.len() {
        lemma_same_names(a, b, key, from + 1);
    }
}

/// What is found is a place of the list.
proof fn lemma_entry_in_list(entries: Seq<(Vec<u8>, i32)>, key: PathKey, from: int)
    requires
        0 <= from,
    ensures
        entry_of(entries, key, from) matches Some(i) ==> from <= i < entries.len() && path_key(
            entries[i].0@,
        ) == key,
    decreases entries.len() - from,
{
    if from < entries.len() {
        lemma_entry_in_list(entries, key, from + 1);
    }
}

/// Where a path stands in a list that got one entry more.
proof fn lemma_pushed_name(
    entries: Seq<(Vec<u8>, i32)>,
    entry: (Vec<u8>, i32),
    key: PathKey,
    from: int,
)
    requires
        0 <= from <= entries.len(),
    ensures
        entry_of(entries.push(entry), key, from) == match entry_of(entries, key, from) {
            Some(i) => Some(i),
            None => if path_key(entry.0@) == key {
                Some(entries.len() as int)
            } else {
                None
            },
        },
    decreases entries.len() - from,
{
    let longer = entries.push(entry);
    if from < entries.len() {
        assert(longer[from] == entries[from]);
        lemma_pushed_name(entries, entry, key, from + 1);
    } else {
        assert(longer[from] == entry);
        assert(entry_of(longer, key, from + 1) is None);
    }
}

/// Whether two rows of bytes are the same.
fn same_bytes(a: &Vec<u8>, b: &Vec<u8>) -> (same: bool)
    ensures
        same == (a@ == b@),
{
    if a.len() != b.len() {
        return false;
    }
    let mut i: usize = 0;
    while i < a.len()
        invariant
            i <= a@.len(),
            a@.len() == b@.len(),
            forall|k: int| 0 <= k < i ==> a@[k] == b@[k],
        decreases a@.len() - i,
    {
        if a[i] != b[i] {
            return false;
        }
        i = i + 1;
    }
    assert(a@ =~= b@);
    true
}

/// A copy of a name.
fn copy_name(name: &Vec<u8>) -> (copy: Vec<u8>)
    ensures
        copy@ == name@,
{
    let copy = copy_range(name, 0, name.len());
    assert(copy@ =~= name@);
    copy
}

/// The clients that are connected, with the name of the device of each. A
/// device keeps its name, which is a path, when it comes back as another client;
/// two spellings of one path name the same device.
pub struct PortTable {
    port_to_hw: HashMap<i32, Vec<u8>>,
    hw_to_port: Vec<(Vec<u8>, i32)>,
}

impl PortTable {
    /// The name of the device of each client.
    pub closed spec fn names(self) -> Map<i32, Seq<u8>> {
        self.port_to_hw@.map_values(|name: Vec<u8>| name@)
    }

    /// The client that a device was last connected as.
    pub closed spec fn client(self, name: Seq<u8>) -> Option<i32> {
        match entry_of(self.hw_to_port@, path_key(name), 0) {
            Some(i) => Some(self.hw_to_port@[i].1),
            None => None,
        }
    }

    /// A table without any client.
    pub fn new() -> (table: PortTable)
        ensures
            table.names() == Map::<i32, Seq<u8>>::empty(),
            forall|name: Seq<u8>| #[trigger] table.client(name) is None,
    {
        broadcast use vstd::std_specs::hash::group_hash_axioms;

        let table = PortTable { port_to_hw: HashMap::new(), hw_to_port: Vec::new() };
        assert(table.names() =~= Map::<i32, Seq<u8>>::empty());
        table
    }

    /// Where the path that a name spells stands in the list.
    fn find(&self, name: &Vec<u8>) -> (found: Option<usize>)
        ensures
            match found {
                Some(i) => i < self.hw_to_port@.len() && entry_of(
                    self.hw_to_port@,
                    path_key(name@),
                    0,
                ) == Some(i as int),
                None => entry_of(self.hw_to_port@, path_key(name@), 0) is None,
            },
    {
        let mut i: usize = 0;
        while i < self.hw_to_port.len()
            invariant
                i <= self.hw_to_port@.len(),
                entry_of(self.hw_to_port@, path_key(name@), 0) == entry_of(
                    self.hw_to_port@,
                    path_key(name@),
                    i as int,
                ),
            decreases self.hw_to_port@.len() - i,
        {
            if same_path(&self.hw_to_port[i].0, name) {
                return Some(i);
            }
            i = i + 1;
        }
        None
    }

    /// Records that the device `name` is connected as `client`.
    pub fn insert(&mut self, client: i32, name: Vec<u8>)
        ensures
            final(self).names() == old(self).names().insert(client, name@),
            forall|other: Seq<u8>| #[trigger]
                final(self).client(other) == if path_key(other) == path_key(name@) {
                    Some(client)
                } else {
                    old(self).client(other)
                },
    {
        broadcast use vstd::std_specs::hash::group_hash_axioms;

        self.port_to_hw.insert(client, copy_name(&name));
        assert(self.names() =~= old(self).names().insert(client, name@));
        let ghost before = self.hw_to_port@;
        let ghost text = name@;
        match self.find(&name) {
            Some(i) => {
                self.hw_to_port[i].1 = client;
                proof {
                    assert forall|other: Seq<u8>| #[trigger]
                        self.client(other) == if path_key(other) == path_key(text) {
                            Some(client)
                        } else {
                            old(self).client(other)
                        } by {
                        lemma_same_names(before, self.hw_to_port@, path_key(other), 0);
                        lemma_entry_in_list(before, path_key(text), 0);
                        lemma_entry_in_list(before, path_key(other), 0);
                    }
                }
            },
            None => {
                self.hw_to_port.push((name, client));
                proof {
                    assert forall|other: Seq<u8>| #[trigger]
                        self.client(other) == if path_key(other) == path_key(text) {
                            Some(client)
                        } else {
                            old(self).client(other)
                        } by {
                        lemma_pushed_name(before, self.hw_to_port@.last(), path_key(other), 0);
                        assert(self.hw_to_port@ =~= before.push(self.hw_to_port@.last()));
                        lemma_entry_in_list(before, path_key(other), 0);
                    }
                }
            },
        }
    }

    /// How many clients are connected.
    pub fn len(&self) -> (len: usize)
        ensures
            len == self.names().len(),
    {
        broadcast use vstd::std_specs::hash::group_hash_axioms;

        assert(self.names().dom() =~= self.port_to_hw@.dom());
        self.port_to_hw.len()
    }

    /// The clients that are connected, in no particular order.
    pub fn clients(&self) -> (clients: Vec<i32>)
        ensures
            clients@.no_duplicates(),
            clients@.to_set() == self.names().dom(),
    {
        broadcast use vstd::std_specs::hash::group_hash_axioms;

        let mut clients: Vec<i32> = Vec::new();
        for client in keys: self.port_to_hw.keys()
            invariant
                clients@ == keys.seq().take(keys.index() as int).unref(),
                keys.seq().take(keys.seq().len() as int) == keys.seq(),
                keys.seq().unref().to_set() == self.port_to_hw@.dom(),
        {
            clients.push(*client);
        }
        assert(self.names().dom() =~= self.port_to_hw@.dom());
        assert(clients@.to_set() =~= self.names().dom());
        clients
    }

    /// The name of the device of a client.
    pub fn name(&self, client: i32) -> (name: Option<Vec<u8>>)
        ensures
            match name {
                Some(name) => self.names().contains_key(client) && name@ == self.names()[client],
                None => !self.names().contains_key(client),
            },
    {
        broadcast use vstd::std_specs::hash::group_hash_axioms;

        match self.port_to_hw.get(&client) {
            Some(name) => Some(copy_name(name)),
            None => None,
        }
    }

    /// The clients of the first `count` devices of a list, without those that
    /// were never connected.
    pub open spec fn known(self, names: Seq<Seq<u8>>, count: int) -> Seq<i32>
        decreases count,
    {
        if count <= 0 {
            Seq::empty()
        } else {
            let earlier = self.known(names, count - 1);
            match self.client(names[count - 1]) {
                Some(client) => earlier.push(client),
                None => earlier,
            }
        }
    }

    /// The clients of a list of devices, without those that were never
    /// connected.
    pub fn known_clients(&self, names: &Vec<Vec<u8>>) -> (clients: Vec<i32>)
        ensures
            clients@ == self.known(name_texts(names@), names@.len() as int),
    {
        let ghost texts = name_texts(names@);
        let mut clients: Vec<i32> = Vec::new();
        let mut i: usize = 0;
        while i < names.len()
            invariant
                i <= names@.len(),
                texts == name_texts(names@),
                clients@ == self.known(texts, i as int),
            decreases names@.len() - i,
        {
            assert(texts[i as int] == names@[i as int]@);
            if let Some(found) = self.find(&names[i]) {
                clients.push(self.hw_to_port[found].1);
            }
            i = i + 1;
        }
        clients
    }
}

/// The bytes of each name.
pub open spec fn name_texts(names: Seq<Vec<u8>>) -> Seq<Seq<u8>> {
    names.map_values(|name: Vec<u8>| name@)
}

impl PortTable {
    /// The clients of a list are those of the devices that were connected, in the
    /// order of the list.
    pub proof fn law_known_clients(self, names: Seq<Seq<u8>>, count: int)
        requires
            0 <= count <= names.len(),
        ensures
            self.known(names, count) == names.take(count).filter(
                |name: Seq<u8>| self.client(name) is Some,
            ).map_values(|name: Seq<u8>| self.client(name)->0),
        decreases count,
    {
        let connected = |name: Seq<u8>| self.client(name) is Some;
        let client = |name: Seq<u8>| self.client(name)->0;
        reveal(Seq::filter);
        if count == 0 {
            assert(names.take(0) =~= Seq::<Seq<u8>>::empty());
            assert(self.known(names, 0) =~= names.take(0).filter(connected).map_values(client));
        } else {
            self.law_known_clients(names, count - 1);
            assert(names.take(count).drop_last() =~= names.take(count - 1));
            assert(names.take(count).last() == names[count - 1]);
            assert(self.known(names, count) =~= names.take(count).filter(connected).map_values(
                client,
            ));
        }
    }

    /// When every device of a list was connected, the list of clients has one for
    /// each of them, in order.
    pub proof fn law_all_known(self, names: Seq<Seq<u8>>, count: int)
        requires
            0 <= count <= names.len(),
            forall|i: int| 0 <= i < count ==> self.client(#[trigger] names[i]) is Some,
        ensures
            self.known(names, count).len() == count,
            forall|i: int|
                0 <= i < count ==> Some(#[trigger] self.known(names, count)[i]) == self.client(
                    names[i],
                ),
        decreases count,
    {
        if count > 0 {
            self.law_all_known(names, count - 1);
            assert(self.client(names[count - 1]) is Some);
            let earlier = self.known(names, count - 1);
            let all = self.known(names, count);
            assert forall|i: int| 0 <= i < count implies Some(#[trigger] all[i]) == self.client(
                names[i],
            ) by {
                if i < count - 1 {
                    assert(all[i] == earlier[i]);
                }
            }
        }
    }
}

/// A piece that is followed by a separator ends there.
proof fn lemma_piece_before_slash(piece: Seq<u8>, rest: Seq<u8>)
    requires
        forall|i: int| 0 <= i < piece.len() ==> #[trigger] piece[i] != SLASH,
    ensures
        piece_len(piece) == piece.len(),
        piece_len(piece + seq![SLASH] + rest) == piece.len(),
    decreases piece.len(),
{
    let path = piece + seq![SLASH] + rest;
    if piece.len() > 0 {
        let shorter = piece.skip(1);
        assert forall|i: int| 0 <= i < shorter.len() implies #[trigger] shorter[i] != SLASH by {
            assert(shorter[i] == piece[i + 1]);
        }
        lemma_piece_before_slash(shorter, rest);
        assert(path.skip(1) =~= shorter + seq![SLASH] + rest);
        assert(path[0] == piece[0]);
        assert(piece[0] != SLASH);
    } else {
        assert(path[0] == SLASH);
    }
}

/// A path without a separator is one component, unless it is empty or a dot.
pub proof fn law_single_component(piece: Seq<u8>)
    requires
        forall|i: int| 0 <= i < piece.len() ==> #[trigger] piece[i] != 0x2f,
    ensures
        piece.len() == 0 || piece == seq![0x2eu8] ==> components(piece) == Seq::<Seq<u8>>::empty(),
        piece.len() > 0 && piece != seq![0x2eu8] ==> components(piece) == seq![piece],
{
    lemma_piece_before_slash(piece, Seq::empty());
    assert(piece.take(piece.len() as int) =~= piece);
    assert(seq![piece] + Seq::<Seq<u8>>::empty() =~= seq![piece]);
}

/// A separator parts a path: its components are those before it and those behind
/// it. So it does not matter how many separators there are, or whether one is at
/// the end.
pub proof fn law_separator_parts(first: Seq<u8>, second: Seq<u8>)
    ensures
        components(first + seq![0x2fu8] + second) == components(first) + components(second),
    decreases first.len(),
{
    let path = first + seq![SLASH] + second;
    let len = piece_len(first);
    lemma_piece_len(first);
    let piece = first.take(len as int);
    lemma_piece_stops(first);
    if len < first.len() {
        let rest = first.skip(len as int + 1);
        assert(first =~= piece + seq![SLASH] + rest);
        assert(path =~= piece + seq![SLASH] + (rest + seq![SLASH] + second));
        lemma_piece_before_slash(piece, rest + seq![SLASH] + second);
        law_separator_parts(rest, second);
        assert(path.take(len as int) =~= piece);
        assert(path.skip(len as int + 1) =~= rest + seq![SLASH] + second);
        assert(components(path) =~= components(first) + components(second));
    } else {
        assert(first =~= piece);
        lemma_piece_before_slash(piece, second);
        assert(path.take(len as int) =~= piece);
        assert(path.skip(len as int + 1) =~= second);
        assert(components(path) =~= components(first) + components(second));
    }
}

/// A piece holds no separator, and ends at one or at the end of the path.
proof fn lemma_piece_stops(path: Seq<u8>)
    ensures
        forall|i: int| 0 <= i < piece_len(path) ==> #[trigger] path.take(piece_len(path) as int)[i]
            != SLASH,
        piece_len(path) < path.len() ==> path[piece_len(path) as int] == SLASH,
    decreases path.len(),
{
    lemma_piece_len(path);
    if path.len() > 0 && path[0] != SLASH {
        let rest = path.skip(1);
        lemma_piece_stops(rest);
        lemma_piece_len(rest);
        let len = piece_len(path);
        assert forall|i: int| 0 <= i < len implies #[trigger] path.take(len as int)[i]
            != SLASH by {
            if i > 0 {
                assert(rest.take(piece_len(rest) as int)[i - 1] == path[i]);
            }
        }
        if len < path.len() {
            assert(rest[piece_len(rest) as int] == path[len as int]);
        }
    }
}

/// Two names are the same device exactly when both start at the root or neither
/// does, both start with a dot or neither does, and their components are the same.
pub proof fn law_same_device(a: Seq<u8>, b: Seq<u8>)
    ensures
        path_key(a) == path_key(b) <==> {
            &&& (a.len() > 0 && a[0] == 0x2f) == (b.len() > 0 && b[0] == 0x2f)
            &&& (a == seq![0x2eu8] || (a.len() >= 2 && a[0] == 0x2e && a[1] == 0x2f)) == (b
                == seq![0x2eu8] || (b.len() >= 2 && b[0] == 0x2e && b[1] == 0x2f))
            &&& components(a) == components(b)
        },
{
    assert(a.len() == 1 && a[0] == DOT ==> a =~= seq![DOT]);
    assert(b.len() == 1 && b[0] == DOT ==> b =~= seq![DOT]);
}

} // verus!
