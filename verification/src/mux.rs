//! The decisions of a multiplexer that opens streams with unique ids:
//! matching each stream to the caller waiting for its id, reading and
//! writing the fixed-length ids, and tracking when the connection is done.
//!
//! The connection's I/O, its wakers and its channels stay with the caller:
//! these types hold streams and senders as opaque values and say what to do
//! with them.
use vstd::prelude::*;

use vstd::string::StringSliceAdditionalSpecFns;

use crate::utf8::str_from_utf8;

verus! {

/// The length of an internal stream identifier, in bytes.
pub const ID_LEN: usize = 32;

/// The BLAKE3 digest of `data`.
pub uninterp spec fn blake3_digest(data: Seq<u8>) -> Seq<u8>;

/// Hashes `data` with BLAKE3 (`blake3::hash`); the contract claims only that
/// the 32 bytes returned are the digest of `data`, a function of `data`
/// alone.
#[verifier::external_body]
fn blake3_hash(data: &[u8]) -> (r: [u8; 32])
    ensures
        r@ == blake3_digest(data@),
{
    blake3::hash(data).into()
}

/// Internal stream identifier: user-provided ids are hashed to a fixed
/// length.
#[derive(Debug, Clone, Copy, PartialEq, Eq, Hash)]
pub struct InternalId {
    bytes: [u8; 32],
}

impl View for InternalId {
    type V = Seq<u8>;

    closed spec fn view(&self) -> Seq<u8> {
        self.bytes@
    }
}

/// The lowercase hexadecimal digit for `n < 16`.
pub open spec fn hex_digit(n: u8) -> u8 {
    if n < 10 {
        (0x30 + n) as u8
    } else {
        (0x61 + n - 10) as u8
    }
}

/// Two lowercase hexadecimal digits per byte.
pub open spec fn hex_of(bytes: Seq<u8>) -> Seq<u8>
    decreases bytes.len(),
{
    if bytes.len() == 0 {
        Seq::empty()
    } else {
        seq![hex_digit(bytes[0] / 16), hex_digit(bytes[0] % 16)] + hex_of(bytes.drop_first())
    }
}

/// Bytes below 0x80 are valid UTF-8.
proof fn lemma_ascii_valid(bytes: Seq<u8>)
    requires
        forall|i: int| 0 <= i < bytes.len() ==> #[trigger] bytes[i] < 0x80,
    ensures
        vstd::utf8::valid_utf8(bytes),
    decreases bytes.len(),
{
    if bytes.len() > 0 {
        let rest = bytes.subrange(1, bytes.len() as int);
        assert(vstd::utf8::pop_first_scalar(bytes) =~= rest);
        lemma_ascii_valid(rest);
    }
}

impl InternalId {
    /// Creates an id from the bytes a user chose, by hashing them.
    pub fn new(bytes: &[u8]) -> (r: InternalId)
        ensures
            r@ == blake3_digest(bytes@),
    {
        InternalId { bytes: blake3_hash(bytes) }
    }

    /// Wraps the 32 bytes of an id as received from the peer.
    pub fn from_bytes(bytes: [u8; 32]) -> (r: InternalId)
        ensures
            r@ == bytes@,
    {
        InternalId { bytes }
    }

    /// The bytes of the id.
    pub fn as_bytes(&self) -> (r: &[u8])
        ensures
            r@ == self@,
            r@.len() == ID_LEN,
    {
        self.bytes.as_slice()
    }

    /// The first four bytes of the id in lowercase hexadecimal, as the id
    /// is displayed.
    pub fn short_hex(&self) -> (r: String)
        ensures
            vstd::utf8::encode_utf8(r@) == hex_of(self@.subrange(0, 4)),
    {
        let mut out: Vec<u8> = Vec::new();
        let mut k: usize = 0;
        while k < 4
            invariant
                0 <= k <= 4,
                self.bytes@.len() == 32,
                out@ == hex_of(self.bytes@.subrange(0, k as int)),
                forall|i: int| 0 <= i < out@.len() ==> #[trigger] out@[i] < 0x80,
            decreases 4 - k,
        {
            let b = self.bytes[k];
            let hi = b / 16;
            let lo = b % 16;
            let dh: u8 = if hi < 10 { 0x30 + hi } else { 0x61 + hi - 10 };
            let dl: u8 = if lo < 10 { 0x30 + lo } else { 0x61 + lo - 10 };
            out.push(dh);
            out.push(dl);
            proof {
                lemma_hex_of_push(self.bytes@.subrange(0, k as int), b);
                assert(self.bytes@.subrange(0, k + 1) =~= self.bytes@.subrange(0, k as int).push(b));
            }
            k += 1;
        }
        proof {
            lemma_ascii_valid(out@);
        }
        match str_from_utf8(out.as_slice()) {
            Some(s) => {
                let r = s.to_owned();
                proof {
                    vstd::utf8::decode_utf8_encode_utf8(s.spec_bytes());
                }
                r
            },
            None => {
                proof {
                    assert(false);
                }
                String::new()
            },
        }
    }
}

/// Appending a byte appends its two digits.
proof fn lemma_hex_of_push(bytes: Seq<u8>, b: u8)
    ensures
        hex_of(bytes.push(b)) == hex_of(bytes) + seq![hex_digit(b / 16), hex_digit(b % 16)],
    decreases bytes.len(),
{
    if bytes.len() == 0 {
        assert(bytes.push(b).drop_first() =~= Seq::<u8>::empty());
        assert(hex_of(Seq::<u8>::empty()) == Seq::<u8>::empty());
        assert(hex_of(bytes.push(b)) =~= hex_of(bytes) + seq![hex_digit(b / 16), hex_digit(b % 16)]);
    } else {
        lemma_hex_of_push(bytes.drop_first(), b);
        assert(bytes.push(b).drop_first() =~= bytes.drop_first().push(b));
        assert(hex_of(bytes.push(b)) =~= hex_of(bytes) + seq![hex_digit(b / 16), hex_digit(b % 16)]);
    }
}

/// Compares two ids byte for byte.
pub fn id_eq(a: &InternalId, b: &InternalId) -> (r: bool)
    ensures
        r == (a@ == b@),
{
    let mut k: usize = 0;
    while k < ID_LEN
        invariant
            0 <= k <= ID_LEN,
            a.bytes@.len() == 32,
            b.bytes@.len() == 32,
            forall|i: int| 0 <= i < k ==> a.bytes@[i] == b.bytes@[i],
        decreases ID_LEN - k,
    {
        if a.bytes[k] != b.bytes[k] {
            return false;
        }
        k += 1;
    }
    proof {
        assert(a.bytes@ =~= b.bytes@);
    }
    true
}

/// Which side of the connection this end is.
#[derive(Debug, Clone, Copy, PartialEq, Eq, Structural)]
pub enum Role {
    /// Opens the streams.
    Client,
    /// Accepts the streams.
    Server,
}

impl Role {
    /// The role's name, as it is displayed.
    pub fn name(&self) -> (r: &'static str)
        ensures
            r@ == (match self {
                Role::Client => "Client"@,
                Role::Server => "Server"@,
            }),
    {
        match self {
            Role::Client => "Client",
            Role::Server => "Server",
        }
    }
}

/// What came of a read of id bytes.
#[derive(Debug, Clone, Copy, PartialEq, Eq)]
pub enum IdRead {
    /// More bytes are needed.
    Pending,
    /// All 32 bytes arrived: the id.
    Done(InternalId),
    /// The stream ended before the id was complete.
    Eof,
}

/// Reads the 32-byte id that starts every incoming stream, a read at a time.
#[derive(Debug, Clone, Copy)]
pub struct IdReader {
    count: usize,
    id: [u8; 32],
}

impl IdReader {
    /// The id bytes received so far.
    pub closed spec fn received(&self) -> Seq<u8> {
        self.id@.subrange(0, self.count as int)
    }

    /// The reader has not yet seen the whole id.
    pub closed spec fn wf(&self) -> bool {
        self.count < ID_LEN
    }

    /// A reader that has received nothing.
    pub fn new() -> (r: IdReader)
        ensures
            r.wf(),
            r.received() == Seq::<u8>::empty(),
    {
        IdReader { count: 0, id: [0u8; 32] }
    }

    /// How many id bytes are still missing.
    pub fn missing(&self) -> (r: usize)
        requires
            self.wf(),
        ensures
            r == ID_LEN - self.received().len(),
            r > 0,
    {
        ID_LEN - self.count
    }

    /// Takes the bytes of one read: the id once all 32 have arrived, `Eof`
    /// when a read brings nothing before that.
    pub fn accept(&mut self, read: &[u8]) -> (r: IdRead)
        requires
            old(self).wf(),
            read@.len() <= ID_LEN - old(self).received().len(),
        ensures
            final(self).received() == old(self).received() + read@,
            final(self).received().len() == ID_LEN ==> (r matches IdRead::Done(id) && id@
                == final(self).received()),
            final(self).received().len() < ID_LEN ==> final(self).wf() && r == (if read@.len() == 0 {
                IdRead::Eof
            } else {
                IdRead::Pending
            }),
    {
        let n = read.len();
        let mut k: usize = 0;
        let ghost before = self.received();
        while k < n
            invariant
                n == read@.len(),
                0 <= k <= n,
                self.count + n <= ID_LEN,
                self.id@.len() == 32,
                self.id@.subrange(0, self.count + k) == before + read@.subrange(0, k as int),
                before == old(self).received(),
                self.count == old(self).count,
            decreases n - k,
        {
            let ghost prev = self.id@;
            self.id[self.count + k] = read[k];
            proof {
                assert(self.id@.subrange(0, self.count + k) =~= prev.subrange(0, self.count + k));
                assert(self.id@.subrange(0, self.count + k + 1) =~= before + read@.subrange(0, k + 1));
            }
            k += 1;
        }
        self.count = self.count + n;
        proof {
            assert(read@.subrange(0, n as int) =~= read@);
        }
        if self.count == ID_LEN {
            proof {
                assert(self.id@.subrange(0, 32) =~= self.id@);
            }
            IdRead::Done(InternalId { bytes: self.id })
        } else if n == 0 {
            IdRead::Eof
        } else {
            IdRead::Pending
        }
    }
}

/// Writes the 32-byte id that starts every outgoing stream, a write at a
/// time.
#[derive(Debug, Clone, Copy)]
pub struct IdWriter {
    count: usize,
    id: InternalId,
}

impl IdWriter {
    /// The id bytes sent so far.
    pub closed spec fn sent(&self) -> Seq<u8> {
        self.id@.subrange(0, self.count as int)
    }

    /// The id being sent.
    pub closed spec fn id_view(&self) -> Seq<u8> {
        self.id@
    }

    /// No more than the id has been sent.
    pub closed spec fn wf(&self) -> bool {
        self.count <= ID_LEN && self.id@.len() == ID_LEN
    }

    /// A writer that has sent nothing of `id`.
    pub fn new(id: InternalId) -> (r: IdWriter)
        ensures
            r.wf(),
            r.id_view() == id@,
            r.sent() == Seq::<u8>::empty(),
    {
        IdWriter { count: 0, id }
    }

    /// The bytes of the id not yet sent.
    pub fn unsent(&self) -> (r: Vec<u8>)
        requires
            self.wf(),
        ensures
            self.sent() + r@ == self.id_view(),
    {
        let mut out: Vec<u8> = Vec::new();
        let mut k: usize = self.count;
        while k < ID_LEN
            invariant
                self.count <= k <= ID_LEN,
                self.id.bytes@.len() == 32,
                out@ == self.id.bytes@.subrange(self.count as int, k as int),
            decreases ID_LEN - k,
        {
            out.push(self.id.bytes[k]);
            proof {
                assert(out@ =~= self.id.bytes@.subrange(self.count as int, k + 1));
            }
            k += 1;
        }
        proof {
            assert(self.id@.subrange(0, self.count as int) + out@ =~= self.id@);
        }
        out
    }

    /// Records that the next `n` unsent bytes were written.
    pub fn on_sent(&mut self, n: usize)
        requires
            old(self).wf(),
            n <= ID_LEN - old(self).sent().len(),
        ensures
            final(self).wf(),
            final(self).id_view() == old(self).id_view(),
            final(self).sent() == old(self).id_view().subrange(0, old(self).sent().len() + n),
    {
        self.count = self.count + n;
    }

    /// Returns `true` once the whole id has been sent.
    pub fn is_done(&self) -> (r: bool)
        requires
            self.wf(),
        ensures
            r == (self.sent() == self.id_view()),
    {
        proof {
            if self.count < ID_LEN {
                assert(self.sent().len() != self.id_view().len());
            } else {
                assert(self.sent() =~= self.id_view());
            }
        }
        self.count == ID_LEN
    }
}

/// Values keyed by stream id, at most one per id.
///
/// An id is a 32-byte digest, not an integer, so the entries are kept in a
/// vector whose ids are distinct; the map's view forgets their order.
#[derive(Debug)]
pub struct IdMap<T> {
    entries: Vec<(InternalId, T)>,
}

/// No id occurs twice among the entries.
pub open spec fn ids_distinct<T>(v: Seq<(InternalId, T)>) -> bool {
    forall|i: int, j: int| 0 <= i < j < v.len() ==> (#[trigger] v[i]).0@ != (#[trigger] v[j]).0@
}

/// The entries as a map from id bytes to values.
pub open spec fn entries_map<T>(v: Seq<(InternalId, T)>) -> Map<Seq<u8>, T> {
    Map::new(
        |k: Seq<u8>| exists|i: int| 0 <= i < v.len() && (#[trigger] v[i]).0@ == k,
        |k: Seq<u8>| v[choose|i: int| 0 <= i < v.len() && (#[trigger] v[i]).0@ == k].1,
    )
}

/// The value of `k` in `m`, if any.
pub open spec fn map_get<T>(m: Map<Seq<u8>, T>, k: Seq<u8>) -> Option<T> {
    if m.dom().contains(k) {
        Some(m[k])
    } else {
        None
    }
}

/// With distinct ids, the entry at `i` gives its id's value.
proof fn lemma_entry<T>(v: Seq<(InternalId, T)>, i: int)
    requires
        ids_distinct(v),
        0 <= i < v.len(),
    ensures
        entries_map(v).dom().contains(v[i].0@),
        entries_map(v)[v[i].0@] == v[i].1,
{
    let k = v[i].0@;
    assert(exists|j: int| 0 <= j < v.len() && (#[trigger] v[j]).0@ == k);
    let j = choose|j: int| 0 <= j < v.len() && (#[trigger] v[j]).0@ == k;
    if j != i {
        if j < i {
            assert(v[j].0@ != v[i].0@);
        } else {
            assert(v[i].0@ != v[j].0@);
        }
    }
}

/// Removing the entry at `i` removes its id from the map.
proof fn lemma_remove_entry<T>(v: Seq<(InternalId, T)>, i: int)
    requires
        ids_distinct(v),
        0 <= i < v.len(),
    ensures
        ids_distinct(v.remove(i)),
        entries_map(v.remove(i)) == entries_map(v).remove(v[i].0@),
{
    let w = v.remove(i);
    let k = v[i].0@;
    assert forall|a: int, b: int| 0 <= a < b < w.len() implies (#[trigger] w[a]).0@ != (#[trigger] w[b]).0@ by {
        let a0 = if a < i { a } else { a + 1 };
        let b0 = if b < i { b } else { b + 1 };
        assert(w[a] == v[a0] && w[b] == v[b0]);
    }
    assert forall|key: Seq<u8>| #[trigger] entries_map(w).dom().contains(key) == entries_map(v).remove(k).dom().contains(key) by {
        if entries_map(w).dom().contains(key) {
            let j = choose|j: int| 0 <= j < w.len() && (#[trigger] w[j]).0@ == key;
            let j0 = if j < i { j } else { j + 1 };
            assert(w[j] == v[j0]);
            assert(v[j0].0@ == key);
            if j0 < i {
                assert(v[j0].0@ != v[i].0@);
            } else {
                assert(v[i].0@ != v[j0].0@);
            }
        }
        if entries_map(v).remove(k).dom().contains(key) {
            let j = choose|j: int| 0 <= j < v.len() && (#[trigger] v[j]).0@ == key;
            assert(j != i);
            let j1 = if j < i { j } else { j - 1 };
            assert(w[j1] == v[j]);
        }
    }
    assert forall|key: Seq<u8>| #[trigger] entries_map(w).dom().contains(key) implies entries_map(w)[key] == entries_map(v).remove(k)[key] by {
        let j = choose|j: int| 0 <= j < w.len() && (#[trigger] w[j]).0@ == key;
        let j0 = if j < i { j } else { j + 1 };
        assert(w[j] == v[j0]);
        lemma_entry(w, j);
        lemma_entry(v, j0);
    }
    assert(entries_map(w) =~= entries_map(v).remove(k));
}

/// Appending an entry with a new id adds it to the map.
proof fn lemma_push_entry<T>(v: Seq<(InternalId, T)>, e: (InternalId, T))
    requires
        ids_distinct(v),
        !entries_map(v).dom().contains(e.0@),
    ensures
        ids_distinct(v.push(e)),
        entries_map(v.push(e)) == entries_map(v).insert(e.0@, e.1),
{
    let w = v.push(e);
    assert forall|a: int, b: int| 0 <= a < b < w.len() implies (#[trigger] w[a]).0@ != (#[trigger] w[b]).0@ by {
        if b == v.len() {
            assert(w[a] == v[a]);
            if v[a].0@ == e.0@ {
                assert(entries_map(v).dom().contains(e.0@));
            }
        } else {
            assert(w[a] == v[a] && w[b] == v[b]);
        }
    }
    assert forall|key: Seq<u8>| #[trigger] entries_map(w).dom().contains(key) == entries_map(v).insert(e.0@, e.1).dom().contains(key) by {
        if entries_map(w).dom().contains(key) {
            let j = choose|j: int| 0 <= j < w.len() && (#[trigger] w[j]).0@ == key;
            if j < v.len() {
                assert(w[j] == v[j]);
            }
        }
        if entries_map(v).dom().contains(key) {
            let j = choose|j: int| 0 <= j < v.len() && (#[trigger] v[j]).0@ == key;
            assert(w[j] == v[j]);
        }
        if key == e.0@ {
            assert(w[v.len() as int] == e);
        }
    }
    assert forall|key: Seq<u8>| #[trigger] entries_map(w).dom().contains(key) implies entries_map(w)[key] == entries_map(v).insert(e.0@, e.1)[key] by {
        let j = choose|j: int| 0 <= j < w.len() && (#[trigger] w[j]).0@ == key;
        lemma_entry(w, j);
        if j < v.len() {
            assert(w[j] == v[j]);
            lemma_entry(v, j);
        }
    }
    assert(entries_map(w) =~= entries_map(v).insert(e.0@, e.1));
}

impl<T> IdMap<T> {
    /// The values by id.
    pub closed spec fn map_view(&self) -> Map<Seq<u8>, T> {
        entries_map(self.entries@)
    }

    #[verifier::type_invariant]
    closed spec fn distinct(&self) -> bool {
        ids_distinct(self.entries@)
    }

    /// An empty map.
    pub fn new() -> (r: IdMap<T>)
        ensures
            r.map_view() == Map::<Seq<u8>, T>::empty(),
    {
        let r = IdMap { entries: Vec::new() };
        proof {
            assert(entries_map(r.entries@) =~= Map::<Seq<u8>, T>::empty());
        }
        r
    }

    /// The position of `id` among the entries.
    fn position(&self, id: &InternalId) -> (r: Option<usize>)
        ensures
            r is None ==> !self.map_view().dom().contains(id@),
            r matches Some(i) ==> i < self.entries@.len() && self.entries@[i as int].0@ == id@,
    {
        let n = self.entries.len();
        let mut k: usize = 0;
        while k < n
            invariant
                n == self.entries@.len(),
                0 <= k <= n,
                forall|j: int| 0 <= j < k ==> (#[trigger] self.entries@[j]).0@ != id@,
            decreases n - k,
        {
            if id_eq(&self.entries[k].0, id) {
                return Some(k);
            }
            k += 1;
        }
        None
    }

    /// Returns `true` if no id has a value.
    pub fn is_empty(&self) -> (r: bool)
        ensures
            r == (self.map_view().dom() == Set::<Seq<u8>>::empty()),
    {
        proof {
            if self.entries@.len() > 0 {
                use_type_invariant(self);
                lemma_entry(self.entries@, 0);
            } else {
                assert(self.map_view().dom() =~= Set::<Seq<u8>>::empty());
            }
        }
        self.entries.len() == 0
    }

    /// Removes and returns the value of `id`, if it has one.
    pub fn remove(&mut self, id: &InternalId) -> (r: Option<T>)
        ensures
            r == map_get(old(self).map_view(), id@),
            final(self).map_view() == old(self).map_view().remove(id@),
    {
        proof {
            use_type_invariant(&*self);
        }
        match self.position(id) {
            Some(i) => {
                let ghost v = self.entries@;
                proof {
                    lemma_entry(v, i as int);
                    lemma_remove_entry(v, i as int);
                }
                let mut entries: Vec<(InternalId, T)> = Vec::new();
                std::mem::swap(&mut entries, &mut self.entries);
                let (_, value) = entries.remove(i);
                self.entries = entries;
                Some(value)
            },
            None => {
                proof {
                    assert(self.map_view().remove(id@) =~= self.map_view());
                }
                None
            },
        }
    }

    /// Sets the value of `id`, returning the value it replaces, if any.
    pub fn insert(&mut self, id: InternalId, value: T) -> (r: Option<T>)
        ensures
            r == map_get(old(self).map_view(), id@),
            final(self).map_view() == old(self).map_view().insert(id@, value),
    {
        let old_value = self.remove(&id);
        proof {
            use_type_invariant(&*self);
            lemma_push_entry(self.entries@, (id, value));
            assert(old(self).map_view().remove(id@).insert(id@, value) =~= old(self).map_view().insert(id@, value));
        }
        let mut entries: Vec<(InternalId, T)> = Vec::new();
        std::mem::swap(&mut entries, &mut self.entries);
        entries.push((id, value));
        self.entries = entries;
        old_value
    }

    /// Removes and returns one entry, if there is any.
    pub fn take_any(&mut self) -> (r: Option<(InternalId, T)>)
        ensures
            r is None <==> old(self).map_view().dom() == Set::<Seq<u8>>::empty(),
            r matches Some((id, value)) ==> {
                &&& old(self).map_view().dom().contains(id@)
                &&& old(self).map_view()[id@] == value
                &&& final(self).map_view() == old(self).map_view().remove(id@)
            },
            r is None ==> final(self).map_view() == old(self).map_view(),
    {
        proof {
            use_type_invariant(&*self);
        }
        if self.entries.len() == 0 {
            proof {
                assert(self.map_view().dom() =~= Set::<Seq<u8>>::empty());
            }
            return None;
        }
        let ghost v = self.entries@;
        proof {
            lemma_entry(v, 0);
            lemma_remove_entry(v, 0);
        }
        let mut entries: Vec<(InternalId, T)> = Vec::new();
        std::mem::swap(&mut entries, &mut self.entries);
        let entry = entries.remove(0);
        self.entries = entries;
        Some(entry)
    }
}

/// What to do with a stream whose id has arrived.
#[derive(Debug)]
pub enum Delivery<S, W> {
    /// A caller waits for this id: hand the stream to it through its sender.
    Handoff(W, S),
    /// No caller waits yet: the stream is kept for the caller to come; the
    /// stream it replaced under the same id, if any, is returned.
    Queued(Option<S>),
}

/// The callers waiting for streams and the streams waiting for callers,
/// by id.
#[derive(Debug)]
pub struct Queue<S, W> {
    waiting: IdMap<W>,
    ready: IdMap<S>,
}

impl<S, W> Queue<S, W> {
    /// The senders of the callers waiting, by id.
    pub closed spec fn waiting_view(&self) -> Map<Seq<u8>, W> {
        self.waiting.map_view()
    }

    /// The streams opened before their caller came, by id.
    pub closed spec fn ready_view(&self) -> Map<Seq<u8>, S> {
        self.ready.map_view()
    }

    /// An empty queue.
    pub fn new() -> (r: Queue<S, W>)
        ensures
            r.waiting_view() == Map::<Seq<u8>, W>::empty(),
            r.ready_view() == Map::<Seq<u8>, S>::empty(),
    {
        Queue { waiting: IdMap::new(), ready: IdMap::new() }
    }

    /// A caller opens `id`: the stream already opened for it, if any,
    /// leaving the queue.
    pub fn take_ready(&mut self, id: &InternalId) -> (r: Option<S>)
        ensures
            r == map_get(old(self).ready_view(), id@),
            final(self).ready_view() == old(self).ready_view().remove(id@),
            final(self).waiting_view() == old(self).waiting_view(),
    {
        self.ready.remove(id)
    }

    /// A caller waits for `id` through `sender`; a sender already waiting
    /// for the same id is replaced and returned.
    pub fn add_waiting(&mut self, id: InternalId, sender: W) -> (r: Option<W>)
        ensures
            r == map_get(old(self).waiting_view(), id@),
            final(self).waiting_view() == old(self).waiting_view().insert(id@, sender),
            final(self).ready_view() == old(self).ready_view(),
    {
        self.waiting.insert(id, sender)
    }

    /// Returns `true` if some caller waits for a stream.
    pub fn has_waiting(&self) -> (r: bool)
        ensures
            r == (self.waiting_view().dom() != Set::<Seq<u8>>::empty()),
    {
        !self.waiting.is_empty()
    }

    /// Takes one waiting caller, to open a stream for it.
    pub fn take_waiting(&mut self) -> (r: Option<(InternalId, W)>)
        ensures
            r is None <==> old(self).waiting_view().dom() == Set::<Seq<u8>>::empty(),
            r matches Some((id, sender)) ==> {
                &&& old(self).waiting_view().dom().contains(id@)
                &&& old(self).waiting_view()[id@] == sender
                &&& final(self).waiting_view() == old(self).waiting_view().remove(id@)
            },
            r is None ==> final(self).waiting_view() == old(self).waiting_view(),
            final(self).ready_view() == old(self).ready_view(),
    {
        self.waiting.take_any()
    }

    /// A stream arrived with `id`: handed to the caller waiting for it, or
    /// kept until one comes.
    pub fn deliver(&mut self, id: InternalId, stream: S) -> (r: Delivery<S, W>)
        ensures
            old(self).waiting_view().dom().contains(id@) ==> {
                &&& r == Delivery::Handoff(old(self).waiting_view()[id@], stream)
                &&& final(self).waiting_view() == old(self).waiting_view().remove(id@)
                &&& final(self).ready_view() == old(self).ready_view()
            },
            !old(self).waiting_view().dom().contains(id@) ==> {
                &&& r == Delivery::<S, W>::Queued(map_get(old(self).ready_view(), id@))
                &&& final(self).waiting_view() == old(self).waiting_view()
                &&& final(self).ready_view() == old(self).ready_view().insert(id@, stream)
            },
    {
        match self.waiting.remove(&id) {
            Some(sender) => Delivery::Handoff(sender, stream),
            None => Delivery::Queued(self.ready.insert(id, stream)),
        }
    }
}

/// Whether a connection has ended, from either side.
#[derive(Debug, Clone, Copy, PartialEq, Eq, Structural)]
pub struct ConnState {
    /// This side has closed the connection.
    pub closed: bool,
    /// The remote has closed the connection.
    pub remote_closed: bool,
}

/// A client's connection offered it an incoming stream, which clients
/// cannot accept.
#[derive(Debug, Clone, Copy, PartialEq, Eq, Structural)]
pub struct IncomingStreamError;

impl IncomingStreamError {
    /// The error's message.
    pub fn message(&self) -> (r: &'static str)
        ensures
            r@ == "client mode cannot accept incoming streams"@,
    {
        "client mode cannot accept incoming streams"
    }
}

impl ConnState {
    /// A connection open on both sides.
    pub fn new() -> (r: ConnState)
        ensures
            !r.closed && !r.remote_closed,
    {
        ConnState { closed: false, remote_closed: false }
    }

    /// Returns `true` once either side has closed the connection.
    pub fn is_complete(&self) -> (r: bool)
        ensures
            r == (self.closed || self.remote_closed),
    {
        self.remote_closed || self.closed
    }

    /// A client polled its inbound side: `Some(true)` if a stream came in,
    /// `Some(false)` if the remote closed, `None` if nothing happened.
    pub fn client_inbound(&mut self, event: Option<bool>) -> (r: Result<(), IncomingStreamError>)
        ensures
            event == Some(true) ==> r is Err && *final(self) == *old(self),
            event == Some(false) ==> r is Ok && final(self).remote_closed && final(self).closed
                == old(self).closed,
            event is None ==> r is Ok && *final(self) == *old(self),
    {
        match event {
            Some(true) => Err(IncomingStreamError),
            Some(false) => {
                self.remote_closed = true;
                Ok(())
            },
            None => Ok(()),
        }
    }

    /// The remote closed the connection, or it broke while a stream was
    /// being opened.
    pub fn on_remote_closed(&mut self)
        ensures
            final(self).remote_closed,
            final(self).closed == old(self).closed,
    {
        self.remote_closed = true;
    }

    /// Returns `true` if the connection should now be closed: a shutdown
    /// was requested and it is not closed yet.
    pub fn should_close(&self, shutdown_requested: bool) -> (r: bool)
        ensures
            r == (!self.closed && shutdown_requested),
    {
        !self.closed && shutdown_requested
    }

    /// This side finished closing the connection.
    pub fn on_closed(&mut self)
        ensures
            final(self).closed,
            final(self).remote_closed == old(self).remote_closed,
    {
        self.closed = true;
    }
}

} // verus!
