//! Compact storage for variable-length strings and byte blobs.
//!
//! [`IndexedPackedStrings`] keeps all strings in one byte arena and addresses
//! them through 64-bit index entries, which gives random access.
//! [`PackedStrings`] and [`PackedBytes`] are streaming encodings in which every
//! item is preceded by its length; they are read front to back with
//! [`StringPackerIterator`] and [`PackedBytesIterator`].

use vstd::prelude::*;
use vstd::slice::slice_subrange;
use vstd::string::*;
use vstd::utf8::*;

use crate::errors::QueryError;

verus! {

/// An index entry stores the length of its string in the low 24 bits.
pub const LENGTH_RANGE: u64 = 0x100_0000;

/// An index entry stores the arena offset of its string in the upper 40 bits.
pub const OFFSET_RANGE: u64 = 0x100_0000_0000;

/// The byte arena that holds `strings`: their UTF-8 encodings, one after the other.
pub open spec fn arena_of(strings: Seq<Seq<char>>) -> Seq<u8>
    decreases strings.len(),
{
    if strings.len() == 0 {
        Seq::empty()
    } else {
        arena_of(strings.drop_last()) + encode_utf8(strings.last())
    }
}

/// The index entry of the `i`-th of `strings`: where it starts in the arena,
/// times 2^24, plus the number of bytes it takes.
pub open spec fn entry_of(strings: Seq<Seq<char>>, i: int) -> u64 {
    (arena_of(strings.take(i)).len() * LENGTH_RANGE + encode_utf8(strings[i]).len()) as u64
}

/// The index that addresses `strings` in `arena_of(strings)`.
pub open spec fn index_of(strings: Seq<Seq<char>>) -> Seq<u64> {
    Seq::new(strings.len(), |i: int| entry_of(strings, i))
}

/// Every string starts below offset 2^40 and is shorter than 2^24 bytes.
pub open spec fn within_limits(strings: Seq<Seq<char>>) -> bool {
    forall|i: int|
        0 <= i < strings.len() ==> {
            &&& (#[trigger] arena_of(strings.take(i))).len() < OFFSET_RANGE
            &&& encode_utf8(strings[i]).len() < LENGTH_RANGE
        }
}

/// The arena offset held by an index entry.
pub open spec fn entry_offset(entry: u64) -> int {
    entry as int / LENGTH_RANGE as int
}

/// The string length held by an index entry.
pub open spec fn entry_len(entry: u64) -> int {
    entry as int % LENGTH_RANGE as int
}

/// The string that `entry` addresses in `arena`.
pub open spec fn string_at(entry: u64, arena: Seq<u8>) -> Seq<char> {
    decode_utf8(arena.subrange(entry_offset(entry), entry_offset(entry) + entry_len(entry)))
}

/// The strings that `index` addresses in `arena`.
pub open spec fn unpack(index: Seq<u64>, arena: Seq<u8>) -> Seq<Seq<char>> {
    Seq::new(index.len(), |i: int| string_at(index[i], arena))
}

/// An entry built from an offset and a length within their ranges gives both back.
pub proof fn lemma_entry_fields(offset: nat, len: nat)
    requires
        offset < OFFSET_RANGE,
        len < LENGTH_RANGE,
    ensures
        offset * LENGTH_RANGE + len <= u64::MAX,
        entry_offset((offset * LENGTH_RANGE + len) as u64) == offset,
        entry_len((offset * LENGTH_RANGE + len) as u64) == len,
{
    let unit = LENGTH_RANGE as int;
    let total = offset * unit + len;
    assert(offset * unit <= (OFFSET_RANGE - 1) * unit) by (nonlinear_arith)
        requires
            offset <= OFFSET_RANGE - 1,
            unit == 0x100_0000,
    ;
    vstd::arithmetic::div_mod::lemma_fundamental_div_mod_converse(
        total,
        unit,
        offset as int,
        len as int,
    );
}

/// The arena of the first `i` strings is a prefix of the whole arena, and the
/// `i`-th string's encoding follows it directly.
pub proof fn lemma_arena_take(strings: Seq<Seq<char>>, i: int)
    requires
        0 <= i <= strings.len(),
    ensures
        arena_of(strings.take(i)).len() <= arena_of(strings).len(),
        arena_of(strings).subrange(0, arena_of(strings.take(i)).len() as int) == arena_of(
            strings.take(i),
        ),
        i < strings.len() ==> {
            let start = arena_of(strings.take(i)).len() as int;
            let end = start + encode_utf8(strings[i]).len();
            &&& end <= arena_of(strings).len()
            &&& arena_of(strings).subrange(start, end) == encode_utf8(strings[i])
        },
    decreases strings.len(),
{
    if i == strings.len() {
        assert(strings.take(i) =~= strings);
        assert(arena_of(strings).subrange(0, arena_of(strings).len() as int) =~= arena_of(
            strings,
        ));
    } else {
        let front = strings.drop_last();
        assert(strings.take(i) =~= front.take(i));
        lemma_arena_take(front, i);
        let start = arena_of(strings.take(i)).len() as int;
        assert(arena_of(strings).subrange(0, start) =~= arena_of(front).subrange(0, start));
        if i == front.len() {
            assert(front.take(i) =~= front);
            assert(arena_of(strings).subrange(
                start,
                start + encode_utf8(strings[i]).len() as int,
            ) =~= encode_utf8(strings[i]));
        } else {
            let end = start + encode_utf8(strings[i]).len();
            assert(arena_of(strings).subrange(start, end) =~= arena_of(front).subrange(
                start,
                end,
            ));
        }
    }
}

/// Round trip: strings within the limits are read back unchanged from the
/// index and the arena that store them.
pub proof fn lemma_unpack_pack(strings: Seq<Seq<char>>)
    requires
        within_limits(strings),
    ensures
        unpack(index_of(strings), arena_of(strings)) == strings,
{
    let read = unpack(index_of(strings), arena_of(strings));
    assert forall|i: int| 0 <= i < strings.len() implies read[i] == strings[i] by {
        let offset = arena_of(strings.take(i)).len();
        let len = encode_utf8(strings[i]).len();
        lemma_entry_fields(offset, len);
        lemma_arena_take(strings, i);
        encode_utf8_decode_utf8(strings[i]);
    }
    assert(read =~= strings);
}

/// Appending a string leaves the entries and the arena of the earlier strings
/// as they were and adds its own behind them.
pub proof fn lemma_pack_push(strings: Seq<Seq<char>>, last: Seq<char>)
    ensures
        arena_of(strings.push(last)) == arena_of(strings) + encode_utf8(last),
        index_of(strings.push(last)) == index_of(strings).push(
            (arena_of(strings).len() * LENGTH_RANGE + encode_utf8(last).len()) as u64,
        ),
        within_limits(strings.push(last)) <==> {
            &&& within_limits(strings)
            &&& arena_of(strings).len() < OFFSET_RANGE
            &&& encode_utf8(last).len() < LENGTH_RANGE
        },
{
    let longer = strings.push(last);
    let n = strings.len() as int;
    assert(longer.drop_last() =~= strings);
    assert(longer.take(n) =~= strings);
    assert forall|i: int| 0 <= i < n implies longer.take(i) == strings.take(i) by {
        assert(longer.take(i) =~= strings.take(i));
    }
    assert(index_of(longer) =~= index_of(strings).push(
        (arena_of(strings).len() * LENGTH_RANGE + encode_utf8(last).len()) as u64,
    ));
    if within_limits(longer) {
        assert(arena_of(longer.take(n)).len() < OFFSET_RANGE);
        assert forall|i: int| 0 <= i < n implies (#[trigger] arena_of(strings.take(i))).len()
            < OFFSET_RANGE && encode_utf8(strings[i]).len() < LENGTH_RANGE by {
            assert(arena_of(longer.take(i)).len() < OFFSET_RANGE);
            assert(longer[i] == strings[i]);
        }
    }
    if within_limits(strings) && arena_of(strings).len() < OFFSET_RANGE && encode_utf8(last).len()
        < LENGTH_RANGE {
        assert forall|i: int| 0 <= i < longer.len() implies (#[trigger] arena_of(
            longer.take(i),
        )).len() < OFFSET_RANGE && encode_utf8(longer[i]).len() < LENGTH_RANGE by {
            if i < n {
                assert(arena_of(strings.take(i)).len() < OFFSET_RANGE);
                assert(longer[i] == strings[i]);
            }
        }
    }
}

/// `core::str::from_utf8`: succeeds exactly on well-formed UTF-8 and then
/// returns a string slice over the very same bytes.
#[verifier::external_body]
fn utf8_to_str(bytes: &[u8]) -> (s: Option<&str>)
    ensures
        s is Some <==> valid_utf8(bytes@),
        s is Some ==> s->0.spec_bytes() == bytes@,
{
    core::str::from_utf8(bytes).ok()
}

/// The text of a byte range that holds well-formed UTF-8.
fn decode_str(bytes: &[u8]) -> (s: &str)
    requires
        valid_utf8(bytes@),
    ensures
        s@ == decode_utf8(bytes@),
        s.spec_bytes() == bytes@,
{
    match utf8_to_str(bytes) {
        Some(s) => {
            proof {
                encode_utf8_decode_utf8(s@);
            }
            s
        },
        None => "",
    }
}

/// The arena offset and the length held by an index entry that addresses a
/// range within an arena of `arena_len` bytes.
fn split_entry(entry: u64, arena_len: usize) -> (range: (usize, usize))
    requires
        entry_offset(entry) + entry_len(entry) <= arena_len,
    ensures
        range.0 == entry_offset(entry),
        range.1 == entry_len(entry),
{
    ((entry / LENGTH_RANGE) as usize, (entry % LENGTH_RANGE) as usize)
}

/// Strings stored back to back in one byte arena, each addressed by a 64-bit
/// index entry that holds its arena offset in the upper 40 bits and its
/// length in bytes in the lower 24 bits.
#[derive(Clone, Debug)]
pub struct IndexedPackedStrings {
    data: Vec<u64>,
    backing_store: Vec<u8>,
}

impl View for IndexedPackedStrings {
    type V = Seq<Seq<char>>;

    /// The stored strings, in insertion order.
    closed spec fn view(&self) -> Seq<Seq<char>> {
        unpack(self.data@, self.backing_store@)
    }
}

impl IndexedPackedStrings {
    /// The index and the arena are exactly those of the stored strings, and
    /// the strings are within the limits of the entry format.
    pub closed spec fn wf(&self) -> bool {
        &&& within_limits(self@)
        &&& self.data@ == index_of(self@)
        &&& self.backing_store@ == arena_of(self@)
    }

    /// A well-formed collection holds strings within the limits of the entry format.
    pub proof fn lemma_within_limits(&self)
        requires
            self.wf(),
        ensures
            within_limits(self@),
    {
    }

    /// Number of bytes in the arena.
    pub open spec fn arena_len(&self) -> nat {
        arena_of(self@).len()
    }

    /// An empty collection.
    pub fn new() -> (strings: IndexedPackedStrings)
        ensures
            strings.wf(),
            strings@ == Seq::<Seq<char>>::empty(),
    {
        let strings = IndexedPackedStrings { data: Vec::new(), backing_store: Vec::new() };
        assert(strings@ =~= Seq::<Seq<char>>::empty());
        assert(strings.data@ =~= index_of(strings@));
        strings
    }

    /// Appends `elem`. Fails, and changes nothing, when the arena has reached
    /// 2^40 bytes or `elem` takes 2^24 bytes or more.
    pub fn push(&mut self, elem: &str) -> (res: Result<(), QueryError>)
        requires
            old(self).wf(),
        ensures
            final(self).wf(),
            res is Ok <==> old(self).arena_len() < OFFSET_RANGE && elem.spec_bytes().len()
                < LENGTH_RANGE,
            res is Ok ==> final(self)@ == old(self)@.push(elem@),
            res is Err ==> *final(self) == *old(self) && res->Err_0 is FatalError,
    {
        let bytes = elem.as_bytes();
        let offset = self.backing_store.len();
        let len = bytes.len();
        if offset as u64 >= OFFSET_RANGE {
            return Err(QueryError::FatalError("string arena exceeds 2^40 bytes".to_owned()));
        }
        if len as u64 >= LENGTH_RANGE {
            return Err(QueryError::FatalError("string exceeds 2^24 bytes".to_owned()));
        }
        proof {
            lemma_entry_fields(offset as nat, len as nat);
            lemma_pack_push(self@, elem@);
            lemma_unpack_pack(self@.push(elem@));
        }
        self.data.push(offset as u64 * LENGTH_RANGE + len as u64);
        self.backing_store.extend_from_slice(bytes);
        assert(self.backing_store@ =~= old(self).backing_store@ + bytes@);
        Ok(())
    }

    /// Removes all strings.
    pub fn clear(&mut self)
        ensures
            final(self).wf(),
            final(self)@ == Seq::<Seq<char>>::empty(),
    {
        self.data.clear();
        self.backing_store.clear();
        assert(self@ =~= Seq::<Seq<char>>::empty());
        assert(self.data@ =~= index_of(self@));
    }

    /// The `i`-th string.
    pub fn get(&self, i: usize) -> (s: &str)
        requires
            self.wf(),
            i < self@.len(),
        ensures
            s@ == self@[i as int],
    {
        let entry = self.data[i];
        let ghost text = self@[i as int];
        let ghost start = arena_of(self@.take(i as int)).len() as int;
        let ghost end = start + encode_utf8(text).len();
        proof {
            assert(entry == entry_of(self@, i as int));
            lemma_entry_fields(start as nat, encode_utf8(text).len());
            lemma_arena_take(self@, i as int);
            encode_utf8_valid_utf8(text);
            encode_utf8_decode_utf8(text);
        }
        let (offset, len) = split_entry(entry, self.backing_store.len());
        let bytes = slice_subrange(self.backing_store.as_slice(), offset, offset + len);
        decode_str(bytes)
    }

    /// All strings, in insertion order.
    pub fn iter(&self) -> (strings: Vec<&str>)
        requires
            self.wf(),
        ensures
            strings@.len() == self@.len(),
            forall|i: int| 0 <= i < strings@.len() ==> (#[trigger] strings@[i])@ == self@[i],
    {
        let mut strings: Vec<&str> = Vec::new();
        let mut i: usize = 0;
        while i < self.data.len()
            invariant
                self.wf(),
                self.data@.len() == self@.len(),
                i <= self.data@.len(),
                strings@.len() == i,
                forall|k: int| 0 <= k < i ==> (#[trigger] strings@[k])@ == self@[k],
            decreases self.data@.len() - i,
        {
            strings.push(self.get(i));
            i += 1;
        }
        strings
    }

    /// Number of bytes in the arena.
    pub fn arena_bytes(&self) -> (n: usize)
        requires
            self.wf(),
        ensures
            n == self.arena_len(),
    {
        self.backing_store.len()
    }

    /// Number of strings.
    pub fn len(&self) -> (n: usize)
        ensures
            n == self@.len(),
    {
        self.data.len()
    }

    /// The index entries and the arena.
    pub fn into_parts(self) -> (parts: (Vec<u64>, Vec<u8>))
        ensures
            self@ == unpack(parts.0@, parts.1@),
            self.wf() ==> parts.0@ == index_of(self@) && parts.1@ == arena_of(self@),
    {
        (self.data, self.backing_store)
    }
}

impl Default for IndexedPackedStrings {
    fn default() -> (strings: IndexedPackedStrings)
        ensures
            strings.wf(),
            strings@ == Seq::<Seq<char>>::empty(),
    {
        IndexedPackedStrings::new()
    }
}

/// The length prefix of an item of `len` bytes: one byte of value 255 for
/// every full 255, then one byte below 255 with what is left.
pub open spec fn length_prefix(len: nat) -> Seq<u8>
    decreases len,
{
    if len > 254 {
        seq![255u8] + length_prefix((len - 255) as nat)
    } else {
        seq![len as u8]
    }
}

/// An item in the streaming encoding: its length prefix, then its bytes.
pub open spec fn packed_item(item: Seq<u8>) -> Seq<u8> {
    length_prefix(item.len()) + item
}

/// The streaming encoding of `items`: the encoded items one after the other.
pub open spec fn packed_bytes(items: Seq<Seq<u8>>) -> Seq<u8>
    decreases items.len(),
{
    if items.len() == 0 {
        Seq::empty()
    } else {
        packed_bytes(items.drop_last()) + packed_item(items.last())
    }
}

/// Reads the length prefix at the front of `data`: the length it stands for
/// and the number of bytes it takes. `None` when `data` ends inside the prefix.
pub open spec fn read_length(data: Seq<u8>) -> Option<(nat, nat)>
    decreases data.len(),
{
    if data.len() == 0 {
        None
    } else if data[0] == 255 {
        match read_length(data.drop_first()) {
            Some((len, used)) => Some((len + 255, used + 1)),
            None => None,
        }
    } else {
        Some((data[0] as nat, 1))
    }
}

/// Reads the item at the front of `data`: its bytes and the number of bytes
/// that the prefix and the item take together. `None` when `data` ends early.
pub open spec fn read_item(data: Seq<u8>) -> Option<(Seq<u8>, nat)> {
    match read_length(data) {
        Some((len, used)) => if used + len <= data.len() {
            Some((data.subrange(used as int, (used + len) as int), used + len))
        } else {
            None
        },
        None => None,
    }
}

/// The items that `data` encodes, `None` when `data` is no streaming encoding.
pub open spec fn unpacked_bytes(data: Seq<u8>) -> Option<Seq<Seq<u8>>>
    decreases data.len(),
{
    if data.len() == 0 {
        Some(Seq::empty())
    } else {
        match read_item(data) {
            Some((item, used)) => if 0 < used <= data.len() {
                match unpacked_bytes(data.skip(used as int)) {
                    Some(rest) => Some(seq![item] + rest),
                    None => None,
                }
            } else {
                None
            },
            None => None,
        }
    }
}

/// The streaming encoding of `strings`, each taken as its UTF-8 bytes.
pub open spec fn packed_strings(strings: Seq<Seq<char>>) -> Seq<u8> {
    packed_bytes(strings.map_values(|s: Seq<char>| encode_utf8(s)))
}

/// `data` encodes items that are all well-formed UTF-8.
pub open spec fn encodes_strings(data: Seq<u8>) -> bool {
    &&& unpacked_bytes(data) is Some
    &&& forall|i: int|
        0 <= i < unpacked_bytes(data)->0.len() ==> valid_utf8(#[trigger] unpacked_bytes(data)->0[i])
}

/// The strings that `data` encodes.
pub open spec fn unpacked_strings(data: Seq<u8>) -> Seq<Seq<char>> {
    unpacked_bytes(data)->0.map_values(|b: Seq<u8>| decode_utf8(b))
}

/// A length prefix is read back as the length it was written for.
pub proof fn lemma_read_length_prefix(len: nat, rest: Seq<u8>)
    ensures
        read_length(length_prefix(len) + rest) == Some((len, length_prefix(len).len())),
        length_prefix(len).len() > 0,
    decreases len,
{
    let data = length_prefix(len) + rest;
    if len > 254 {
        let shorter = (len - 255) as nat;
        lemma_read_length_prefix(shorter, rest);
        assert(data.drop_first() =~= length_prefix(shorter) + rest);
    }
}

/// An encoded item is read back as it was written.
pub proof fn lemma_read_packed_item(item: Seq<u8>, rest: Seq<u8>)
    ensures
        read_item(packed_item(item) + rest) == Some((item, packed_item(item).len())),
        packed_item(item).len() > 0,
{
    let data = packed_item(item) + rest;
    let prefix = length_prefix(item.len());
    lemma_read_length_prefix(item.len(), item + rest);
    assert(data =~= prefix + (item + rest));
    assert(data.subrange(prefix.len() as int, (prefix.len() + item.len()) as int) =~= item);
}

/// The encoding of a sequence starts with the encoding of its first item.
pub proof fn lemma_packed_bytes_front(first: Seq<u8>, items: Seq<Seq<u8>>)
    ensures
        packed_bytes(seq![first] + items) == packed_item(first) + packed_bytes(items),
    decreases items.len(),
{
    let all = seq![first] + items;
    if items.len() == 0 {
        assert(all.drop_last() =~= items);
        assert(all.last() == first);
        assert(packed_bytes(all) =~= packed_item(first) + packed_bytes(items));
    } else {
        lemma_packed_bytes_front(first, items.drop_last());
        assert(all.drop_last() =~= seq![first] + items.drop_last());
        assert(packed_bytes(all) =~= packed_item(first) + packed_bytes(items));
    }
}

/// Round trip: decoding the streaming encoding of `items` gives `items`.
pub proof fn lemma_unpack_packed_bytes(items: Seq<Seq<u8>>)
    ensures
        unpacked_bytes(packed_bytes(items)) == Some(items),
    decreases items.len(),
{
    if items.len() > 0 {
        let first = items[0];
        let rest = items.drop_first();
        assert(items =~= seq![first] + rest);
        lemma_packed_bytes_front(first, rest);
        lemma_read_packed_item(first, packed_bytes(rest));
        lemma_unpack_packed_bytes(rest);
        let data = packed_bytes(items);
        assert(data.skip(packed_item(first).len() as int) =~= packed_bytes(rest));
    }
}

/// Round trip: decoding the streaming encoding of `strings` gives `strings`.
pub proof fn lemma_unpack_packed_strings(strings: Seq<Seq<char>>)
    ensures
        encodes_strings(packed_strings(strings)),
        unpacked_strings(packed_strings(strings)) == strings,
{
    let items = strings.map_values(|s: Seq<char>| encode_utf8(s));
    lemma_unpack_packed_bytes(items);
    assert forall|i: int| 0 <= i < items.len() implies valid_utf8(#[trigger] items[i]) by {
        encode_utf8_valid_utf8(strings[i]);
    }
    assert forall|i: int| 0 <= i < strings.len() implies decode_utf8(#[trigger] items[i])
        == strings[i] by {
        encode_utf8_decode_utf8(strings[i]);
    }
    assert(unpacked_strings(packed_strings(strings)) =~= strings);
}

/// Appends the streaming encoding of `item` to `data`.
fn push_packed(data: &mut Vec<u8>, item: &[u8])
    ensures
        final(data)@ == old(data)@ + packed_item(item@),
{
    let mut len = item.len();
    while len > 254
        invariant
            len <= item@.len(),
            data@ + length_prefix(len as nat) == old(data)@ + length_prefix(item@.len()),
        decreases len,
    {
        assert(data@.push(255u8) + length_prefix((len - 255) as nat) =~= data@ + length_prefix(
            len as nat,
        ));
        data.push(255);
        len -= 255;
    }
    assert(data@.push(len as u8) =~= data@ + length_prefix(len as nat));
    data.push(len as u8);
    let ghost with_prefix = data@;
    data.extend_from_slice(item);
    assert(data@ =~= with_prefix + item@);
    assert(data@ =~= old(data)@ + packed_item(item@));
}

/// `Vec::shrink_to_fit`: gives spare capacity back and leaves the elements as they are.
#[verifier::external_body]
fn shrink_bytes(data: &mut Vec<u8>)
    ensures
        final(data)@ == old(data)@,
{
    data.shrink_to_fit();
}

/// Reads the item at position `index` of `data`: the position of its first
/// byte and the position behind its last.
fn item_bounds(data: &[u8], index: usize) -> (bounds: (usize, usize))
    requires
        index < data@.len(),
        unpacked_bytes(data@.skip(index as int)) is Some,
    ensures
        index < bounds.0 <= bounds.1 <= data@.len(),
        read_item(data@.skip(index as int)) == Some(
            (data@.subrange(bounds.0 as int, bounds.1 as int), (bounds.1 - index) as nat),
        ),
{
    let ghost tail = data@.skip(index as int);
    let ghost prefix = read_length(tail)->0;
    let ghost total = prefix.0;
    let ghost used = prefix.1;
    let mut at: usize = index;
    let mut len: usize = 0;
    assert(data@.skip(at as int) =~= tail);
    while data[at] == 255
        invariant
            index <= at < data@.len(),
            tail == data@.skip(index as int),
            read_length(tail) == Some((total, used)),
            used + total <= tail.len(),
            read_length(data@.skip(at as int)) == Some(
                ((total - len) as nat, (used - (at - index)) as nat),
            ),
            len <= total,
            at - index < used,
        decreases data@.len() - at,
    {
        assert(data@.skip(at as int).drop_first() =~= data@.skip(at + 1));
        len += 255;
        at += 1;
    }
    len += data[at] as usize;
    at += 1;
    assert(tail.subrange(used as int, (used + total) as int) =~= data@.subrange(
        at as int,
        at + len,
    ));
    (at, at + len)
}

/// Whether `data` is a streaming encoding, and whether its items are all
/// well-formed UTF-8.
fn check_packing(data: &[u8]) -> (valid: (bool, bool))
    ensures
        valid.0 == (unpacked_bytes(data@) is Some),
        valid.0 ==> valid.1 == encodes_strings(data@),
{
    let mut index: usize = 0;
    let mut text = true;
    let ghost mut read: Seq<Seq<u8>> = Seq::empty();
    assert(data@.skip(0) =~= data@);
    while index < data.len()
        invariant
            index <= data@.len(),
            unpacked_bytes(data@) == match unpacked_bytes(data@.skip(index as int)) {
                Some(rest) => Some(read + rest),
                None => None::<Seq<Seq<u8>>>,
            },
            text == forall|i: int| 0 <= i < read.len() ==> valid_utf8(#[trigger] read[i]),
        decreases data@.len() - index,
    {
        let ghost tail = data@.skip(index as int);
        let mut at: usize = index;
        let mut len: usize = 0;
        assert(data@.skip(at as int) =~= tail);
        while at < data.len() && data[at] == 255
            invariant
                index <= at <= data@.len(),
                index < data@.len(),
                tail == data@.skip(index as int),
                unpacked_bytes(data@) is Some ==> unpacked_bytes(tail) is Some,
                len == 255 * (at - index),
                read_length(tail) == match read_length(data@.skip(at as int)) {
                    Some(prefix) => Some(
                        ((prefix.0 + len) as nat, (prefix.1 + (at - index)) as nat),
                    ),
                    None => None::<(nat, nat)>,
                },
            decreases data@.len() - at,
        {
            assert(data@.skip(at as int)[0] == data@[at as int]);
            assert(data@.skip(at as int).drop_first() =~= data@.skip(at + 1));
            if len > usize::MAX - 255 {
                proof {
                    if read_length(tail) is Some {
                        assert((read_length(tail)->0).0 > tail.len());
                    }
                    assert(read_item(tail) is None);
                }
                return (false, false);
            }
            len += 255;
            at += 1;
        }
        if at >= data.len() || len > usize::MAX - 255 {
            return (false, false);
        }
        assert(data@.skip(at as int)[0] == data@[at as int]);
        len += data[at] as usize;
        at += 1;
        if len > data.len() - at {
            return (false, false);
        }
        let item = slice_subrange(data, at, at + len);
        let ghost before = read;
        proof {
            assert(tail.subrange(at - index, at - index + len) =~= item@);
            assert(tail.skip(at + len - index) =~= data@.skip(at + len));
            read = read.push(item@);
            match unpacked_bytes(data@.skip(at + len)) {
                Some(rest) => {
                    assert(before + (seq![item@] + rest) =~= read + rest);
                },
                None => {},
            }
        }
        if text && utf8_to_str(item).is_none() {
            text = false;
        }
        proof {
            if forall|i: int| 0 <= i < before.len() ==> valid_utf8(#[trigger] before[i]) {
                assert forall|i: int| 0 <= i < read.len() && i != before.len() implies valid_utf8(
                    #[trigger] read[i],
                ) by {
                    assert(read[i] == before[i]);
                }
                assert(read[before.len() as int] == item@);
            } else {
                let i = choose|i: int| 0 <= i < before.len() && !valid_utf8(#[trigger] before[i]);
                assert(read[i] == before[i]);
            }
        }
        index = at + len;
    }
    proof {
        assert(read + Seq::<Seq<u8>>::empty() =~= read);
    }
    (true, text)
}

/// Strings in the streaming encoding, built by appending.
pub struct PackedStrings {
    data: Vec<u8>,
}

impl View for PackedStrings {
    type V = Seq<Seq<char>>;

    /// The strings appended so far, in order.
    closed spec fn view(&self) -> Seq<Seq<char>> {
        unpacked_strings(self.data@)
    }
}

// PERF: encode using variable size length
impl PackedStrings {
    /// The bytes held are exactly the streaming encoding of the strings.
    pub closed spec fn wf(&self) -> bool {
        self.data@ == packed_strings(self@)
    }

    /// The streaming encoding of `strings`.
    pub fn from_iterator(strings: &[&str]) -> (packed: PackedStrings)
        ensures
            packed.wf(),
            packed@ == strings@.map_values(|s: &str| s@),
    {
        let mut sp = PackedStrings { data: Vec::new() };
        proof {
            lemma_unpack_packed_strings(Seq::empty());
            assert(packed_strings(Seq::empty()) =~= Seq::<u8>::empty());
        }
        let mut i: usize = 0;
        while i < strings.len()
            invariant
                i <= strings@.len(),
                sp.wf(),
                sp@ == strings@.take(i as int).map_values(|s: &str| s@),
            decreases strings@.len() - i,
        {
            sp.push(strings[i]);
            assert(strings@.take(i + 1).map_values(|s: &str| s@) =~= strings@.take(
                i as int,
            ).map_values(|s: &str| s@).push(strings@[i as int]@));
            i += 1;
        }
        assert(strings@.take(i as int) =~= strings@);
        sp.shrink_to_fit();
        sp
    }

    /// Appends `string`.
    pub fn push(&mut self, string: &str)
        requires
            old(self).wf(),
        ensures
            final(self).wf(),
            final(self)@ == old(self)@.push(string@),
    {
        proof {
            let longer = old(self)@.push(string@);
            let items = longer.map_values(|s: Seq<char>| encode_utf8(s));
            assert(items.drop_last() =~= old(self)@.map_values(|s: Seq<char>| encode_utf8(s)));
            lemma_unpack_packed_strings(longer);
        }
        push_packed(&mut self.data, string.as_bytes());
    }

    /// Gives spare capacity back.
    pub fn shrink_to_fit(&mut self)
        ensures
            final(self)@ == old(self)@,
            final(self).wf() == old(self).wf(),
    {
        shrink_bytes(&mut self.data);
    }

    /// The encoded bytes.
    pub fn into_vec(self) -> (data: Vec<u8>)
        ensures
            unpacked_strings(data@) == self@,
            self.wf() ==> data@ == packed_strings(self@) && encodes_strings(data@),
    {
        proof {
            if self.wf() {
                lemma_unpack_packed_strings(self@);
            }
        }
        self.data
    }
}

/// Forward-only reader of the strings in a streaming encoding.
pub struct StringPackerIterator<'a> {
    data: &'a [u8],
    curr_index: usize,
}

impl<'a> StringPackerIterator<'a> {
    /// The strings not read yet.
    pub closed spec fn remaining(&self) -> Seq<Seq<char>> {
        unpacked_strings(self.data@.skip(self.curr_index as int))
    }

    /// The reader stands at the start of an item, and what follows encodes strings.
    pub closed spec fn wf(&self) -> bool {
        &&& self.curr_index <= self.data@.len()
        &&& encodes_strings(self.data@.skip(self.curr_index as int))
    }

    /// Whether `data` encodes strings, so that it can be read.
    pub fn is_valid(data: &[u8]) -> (valid: bool)
        ensures
            valid == encodes_strings(data@),
    {
        let (packed, text) = check_packing(data);
        packed && text
    }

    /// A reader at the start of `data`, which must encode strings.
    pub fn from_slice(data: &'a [u8]) -> (iter: StringPackerIterator<'a>)
        requires
            encodes_strings(data@),
        ensures
            iter.wf(),
            iter.remaining() == unpacked_strings(data@),
    {
        assert(data@.skip(0) =~= data@);
        StringPackerIterator { data, curr_index: 0 }
    }

    /// Reads the next string, `None` when all have been read.
    pub fn next(&mut self) -> (item: Option<&'a str>)
        requires
            old(self).wf(),
        ensures
            final(self).wf(),
            old(self).remaining().len() == 0 ==> item is None && final(self).remaining()
                == old(self).remaining(),
            old(self).remaining().len() > 0 ==> item is Some && item->0@
                == old(self).remaining()[0] && final(self).remaining()
                == old(self).remaining().drop_first(),
    {
        if self.curr_index >= self.data.len() {
            return None;
        }
        let ghost tail = self.data@.skip(self.curr_index as int);
        let (start, end) = item_bounds(self.data, self.curr_index);
        let bytes = slice_subrange(self.data, start, end);
        proof {
            let rest = unpacked_bytes(self.data@.skip(end as int))->0;
            assert(tail.skip(end - self.curr_index) =~= self.data@.skip(end as int));
            assert(unpacked_bytes(tail)->0 =~= seq![bytes@] + rest);
            assert(unpacked_bytes(tail)->0[0] == bytes@);
            assert forall|i: int| 0 <= i < rest.len() implies valid_utf8(#[trigger] rest[i]) by {
                assert(unpacked_bytes(tail)->0[i + 1] == rest[i]);
            }
            assert(unpacked_strings(self.data@.skip(end as int)) =~= unpacked_strings(
                tail,
            ).drop_first());
        }
        self.curr_index = end;
        Some(decode_str(bytes))
    }
}

/// Byte blobs in the streaming encoding.
// Could unify with PackedStrings
pub struct PackedBytes {
    data: Vec<u8>,
}

impl View for PackedBytes {
    type V = Seq<Seq<u8>>;

    /// The blobs, in order.
    closed spec fn view(&self) -> Seq<Seq<u8>> {
        unpacked_bytes(self.data@)->0
    }
}

impl PackedBytes {
    /// The bytes held are exactly the streaming encoding of the blobs.
    pub closed spec fn wf(&self) -> bool {
        self.data@ == packed_bytes(self@)
    }

    /// The streaming encoding of `bytes`.
    pub fn from_iterator(bytes: &[Vec<u8>]) -> (packed: PackedBytes)
        ensures
            packed.wf(),
            packed@ == bytes@.map_values(|b: Vec<u8>| b@),
    {
        let mut data = Vec::<u8>::new();
        let ghost items = bytes@.map_values(|b: Vec<u8>| b@);
        let mut i: usize = 0;
        while i < bytes.len()
            invariant
                i <= bytes@.len(),
                items == bytes@.map_values(|b: Vec<u8>| b@),
                data@ == packed_bytes(items.take(i as int)),
            decreases bytes@.len() - i,
        {
            assert(items.take(i + 1).drop_last() =~= items.take(i as int));
            push_packed(&mut data, bytes[i].as_slice());
            i += 1;
        }
        assert(items.take(i as int) =~= items);
        shrink_bytes(&mut data);
        proof {
            lemma_unpack_packed_bytes(items);
        }
        PackedBytes { data }
    }

    /// The encoded bytes.
    pub fn into_vec(self) -> (data: Vec<u8>)
        ensures
            unpacked_bytes(data@)->0 == self@,
            self.wf() ==> data@ == packed_bytes(self@) && unpacked_bytes(data@) is Some,
    {
        proof {
            if self.wf() {
                lemma_unpack_packed_bytes(self@);
            }
        }
        self.data
    }
}

/// Forward-only reader of the blobs in a streaming encoding.
pub struct PackedBytesIterator<'a> {
    data: &'a [u8],
    curr_index: usize,
}

impl<'a> PackedBytesIterator<'a> {
    /// The blobs not read yet.
    pub closed spec fn remaining(&self) -> Seq<Seq<u8>> {
        unpacked_bytes(self.data@.skip(self.curr_index as int))->0
    }

    /// The reader stands at the start of an item, and what follows is a streaming encoding.
    pub closed spec fn wf(&self) -> bool {
        &&& self.curr_index <= self.data@.len()
        &&& unpacked_bytes(self.data@.skip(self.curr_index as int)) is Some
    }

    /// Whether `data` is a streaming encoding, so that it can be read.
    pub fn is_valid(data: &[u8]) -> (valid: bool)
        ensures
            valid == (unpacked_bytes(data@) is Some),
    {
        check_packing(data).0
    }

    /// A reader at the start of `data`, which must be a streaming encoding.
    pub fn from_slice(data: &'a [u8]) -> (iter: PackedBytesIterator<'a>)
        requires
            unpacked_bytes(data@) is Some,
        ensures
            iter.wf(),
            iter.remaining() == unpacked_bytes(data@)->0,
    {
        assert(data@.skip(0) =~= data@);
        PackedBytesIterator { data, curr_index: 0 }
    }

    /// Whether a blob is left to read.
    pub fn has_more(&self) -> (more: bool)
        requires
            self.wf(),
        ensures
            more == (self.remaining().len() > 0),
    {
        self.curr_index < self.data.len()
    }

    /// Reads the next blob, `None` when all have been read.
    pub fn next(&mut self) -> (item: Option<&'a [u8]>)
        requires
            old(self).wf(),
        ensures
            final(self).wf(),
            old(self).remaining().len() == 0 ==> item is None && final(self).remaining()
                == old(self).remaining(),
            old(self).remaining().len() > 0 ==> item is Some && item->0@
                == old(self).remaining()[0] && final(self).remaining()
                == old(self).remaining().drop_first(),
    {
        if !self.has_more() {
            return None;
        }
        let ghost tail = self.data@.skip(self.curr_index as int);
        let (start, end) = item_bounds(self.data, self.curr_index);
        let result = slice_subrange(self.data, start, end);
        proof {
            let rest = unpacked_bytes(self.data@.skip(end as int))->0;
            assert(tail.skip(end - self.curr_index) =~= self.data@.skip(end as int));
            assert(unpacked_bytes(tail)->0 =~= seq![result@] + rest);
            assert(rest =~= unpacked_bytes(tail)->0.drop_first());
        }
        self.curr_index = end;
        Some(result)
    }
}

} // verus!
