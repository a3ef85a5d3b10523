//! String interner with a compact, read-only byte layout.
//!
//! Each distinct string is stored once as an entry: two bytes holding its
//! UTF-8 length (little endian), followed by its UTF-8 bytes. A [`Handle`]
//! is the byte offset of an entry.
use vstd::prelude::*;
use vstd::utf8::*;

verus! {

broadcast use {encode_utf8_valid_utf8, encode_utf8_decode_utf8};

/// Size in bytes of the entry that starts at `off` (little endian `u16`).
pub open spec fn entry_size(data: Seq<u8>, off: int) -> int {
    data[off] as int + data[off + 1] as int * 256
}

/// Offset one past the end of the entry that starts at `off`.
pub open spec fn entry_end(data: Seq<u8>, off: int) -> int {
    off + 2 + entry_size(data, off)
}

/// The entry that starts at `off` lies wholly inside `data`.
pub open spec fn entry_fits(data: Seq<u8>, off: int) -> bool {
    &&& 0 <= off
    &&& off + 2 <= data.len()
    &&& entry_end(data, off) <= data.len()
}

/// The payload bytes of the entry that starts at `off`.
pub open spec fn entry_bytes(data: Seq<u8>, off: int) -> Seq<u8> {
    data.subrange(off + 2, entry_end(data, off))
}

/// The entry that stores `bytes`.
pub open spec fn encode_entry(bytes: Seq<u8>) -> Seq<u8> {
    seq![(bytes.len() % 256) as u8, (bytes.len() / 256) as u8] + bytes
}

/// The layout of an interner that holds `strings`, in this order.
pub open spec fn encode_entries(strings: Seq<Seq<char>>) -> Seq<u8>
    decreases strings.len(),
{
    if strings.len() == 0 {
        seq![]
    } else {
        encode_entry(encode_utf8(strings[0])) + encode_entries(strings.drop_first())
    }
}

/// Every string is short enough for its length to fit in the two byte prefix.
pub open spec fn entries_encodable(strings: Seq<Seq<char>>) -> bool {
    forall|i: int| 0 <= i < strings.len() ==> #[trigger] encode_utf8(strings[i]).len() <= 0xffff
}

/// Byte offset of the `i`-th entry of an interner that holds `strings`.
pub open spec fn entry_offset(strings: Seq<Seq<char>>, i: int) -> int {
    encode_entries(strings.take(i)).len() as int
}

/// The handle that an interner holding `strings` gives out for `s`.
pub open spec fn handle_offset(strings: Seq<Seq<char>>, s: Seq<char>) -> u32 {
    entry_offset(strings, strings.index_of(s)) as u32
}

/// Reads a layout back into its strings, or `None` where it is malformed.
pub open spec fn decode_entries(data: Seq<u8>) -> Option<Seq<Seq<char>>>
    decreases data.len(),
{
    if data.len() == 0 {
        Some(seq![])
    } else if entry_fits(data, 0) && valid_utf8(entry_bytes(data, 0)) {
        match decode_entries(data.subrange(entry_end(data, 0), data.len() as int)) {
            Some(rest) => Some(seq![decode_utf8(entry_bytes(data, 0))] + rest),
            None => None,
        }
    } else {
        None
    }
}

/// The string stored in the entry at `off`.
pub open spec fn decode_utf8_entry(data: Seq<u8>, off: int) -> Seq<char> {
    decode_utf8(entry_bytes(data, off))
}

/// The entry at `off` is readable as a string.
pub open spec fn entry_readable(data: Seq<u8>, off: int) -> bool {
    entry_fits(data, off) && valid_utf8(entry_bytes(data, off))
}

proof fn lemma_encode_entries_push(strings: Seq<Seq<char>>, s: Seq<char>)
    ensures
        encode_entries(strings.push(s)) == encode_entries(strings) + encode_entry(encode_utf8(s)),
    decreases strings.len(),
{
    if strings.len() == 0 {
        assert(strings.push(s).drop_first() =~= Seq::<Seq<char>>::empty());
        assert(encode_entries(strings.push(s).drop_first()) =~= Seq::<u8>::empty());
        assert(strings.push(s)[0] == s);
        assert(encode_entries(strings) =~= Seq::<u8>::empty());
        assert(encode_entries(strings.push(s)) =~= encode_entries(strings) + encode_entry(
            encode_utf8(s),
        ));
    } else {
        lemma_encode_entries_push(strings.drop_first(), s);
        assert(strings.push(s).drop_first() =~= strings.drop_first().push(s));
        assert(encode_entries(strings.push(s)) =~= encode_entries(strings) + encode_entry(
            encode_utf8(s),
        ));
    }
}

proof fn lemma_encode_entries_split(strings: Seq<Seq<char>>, i: int)
    requires
        0 <= i <= strings.len(),
    ensures
        encode_entries(strings) == encode_entries(strings.take(i)) + encode_entries(
            strings.skip(i),
        ),
    decreases strings.len(),
{
    if i == 0 {
        assert(strings.take(0) =~= Seq::<Seq<char>>::empty());
        assert(strings.skip(0) =~= strings);
        assert(encode_entries(strings.take(0)) =~= Seq::<u8>::empty());
        assert(encode_entries(strings) =~= Seq::<u8>::empty() + encode_entries(strings));
    } else {
        lemma_encode_entries_split(strings.drop_first(), i - 1);
        assert(strings.drop_first().take(i - 1) =~= strings.take(i).drop_first());
        assert(strings.drop_first().skip(i - 1) =~= strings.skip(i));
        assert(strings.take(i)[0] == strings[0]);
        assert(encode_entries(strings) =~= encode_entries(strings.take(i)) + encode_entries(
            strings.skip(i),
        ));
    }
}

proof fn lemma_entry_at_front(bytes: Seq<u8>, rest: Seq<u8>)
    requires
        bytes.len() <= 0xffff,
    ensures
        entry_fits(encode_entry(bytes) + rest, 0),
        entry_size(encode_entry(bytes) + rest, 0) == bytes.len(),
        entry_end(encode_entry(bytes) + rest, 0) == bytes.len() + 2,
        entry_bytes(encode_entry(bytes) + rest, 0) == bytes,
        (encode_entry(bytes) + rest).subrange(bytes.len() + 2int, (encode_entry(bytes) + rest).len() as int)
            == rest,
{
    let d = encode_entry(bytes) + rest;
    assert(d[0] == (bytes.len() % 256) as u8);
    assert(d[1] == (bytes.len() / 256) as u8);
    assert(entry_size(d, 0) == bytes.len());
    assert(entry_bytes(d, 0) =~= bytes);
    assert(d.subrange(bytes.len() + 2int, d.len() as int) =~= rest);
}

/// The `i`-th entry of the layout of `strings` fits and holds the UTF-8
/// encoding of `strings[i]`.
pub proof fn lemma_entry_of_layout(strings: Seq<Seq<char>>, i: int)
    requires
        entries_encodable(strings),
        0 <= i < strings.len(),
    ensures
        entry_fits(encode_entries(strings), entry_offset(strings, i)),
        entry_bytes(encode_entries(strings), entry_offset(strings, i)) == encode_utf8(strings[i]),
        entry_readable(encode_entries(strings), entry_offset(strings, i)),
        decode_utf8(entry_bytes(encode_entries(strings), entry_offset(strings, i))) == strings[i],
{
    lemma_encode_entries_split(strings, i);
    let pre = encode_entries(strings.take(i));
    let post = encode_entries(strings.skip(i));
    let b = encode_utf8(strings[i]);
    assert(strings.skip(i)[0] == strings[i]);
    assert(strings.skip(i).drop_first() =~= strings.skip(i + 1));
    assert(post == encode_entry(b) + encode_entries(strings.skip(i + 1)));
    assert(b.len() <= 0xffff);
    lemma_entry_at_front(b, encode_entries(strings.skip(i + 1)));
    let d = encode_entries(strings);
    let off = pre.len() as int;
    assert(d =~= pre + post);
    assert(d[off] == post[0]);
    assert(d[off + 1] == post[1]);
    assert(entry_size(d, off) == entry_size(post, 0));
    assert(entry_bytes(d, off) =~= entry_bytes(post, 0));
}

/// Reading a layout back gives the strings it was made from, in order.
pub proof fn lemma_decode_encode_entries(strings: Seq<Seq<char>>)
    requires
        entries_encodable(strings),
    ensures
        decode_entries(encode_entries(strings)) == Some(strings),
    decreases strings.len(),
{
    if strings.len() == 0 {
        assert(encode_entries(strings) =~= Seq::<u8>::empty());
    } else {
        let b = encode_utf8(strings[0]);
        let rest = encode_entries(strings.drop_first());
        assert(b.len() <= 0xffff);
        lemma_entry_at_front(b, rest);
        assert(entries_encodable(strings.drop_first())) by {
            assert forall|k: int| 0 <= k < strings.drop_first().len() implies #[trigger] encode_utf8(
                strings.drop_first()[k],
            ).len() <= 0xffff by {
                assert(strings.drop_first()[k] == strings[k + 1]);
            }
        }
        lemma_decode_encode_entries(strings.drop_first());
        assert(seq![strings[0]] + strings.drop_first() =~= strings);
    }
}

/// Length of the layout of `strings`.
pub proof fn lemma_encode_entries_len(strings: Seq<Seq<char>>, i: int)
    requires
        0 <= i <= strings.len(),
    ensures
        entry_offset(strings, i) <= encode_entries(strings).len(),
{
    lemma_encode_entries_split(strings, i);
}

/// Interning `s` into an interner that holds `strings` keeps every offset
/// within what a handle holds.
pub open spec fn fits_in_handles(strings: Seq<Seq<char>>, s: Seq<char>) -> bool {
    strings.contains(s) || encode_entries(strings).len() + 2 + encode_utf8(s).len() <= u32::MAX
}

/// A string fits exactly when it is interned already or when the arena,
/// once it holds the string too, still ends within the offsets that a
/// handle holds: the arena may grow up to 4 GiB, and no further.
pub proof fn lemma_fits_iff_arena_addressable(strings: Seq<Seq<char>>, s: Seq<char>)
    ensures
        fits_in_handles(strings, s) <==> (strings.contains(s) || encode_entries(strings.push(s)).len()
            <= u32::MAX),
{
    lemma_encode_entries_push(strings, s);
}

/// The strings, and the handle given out, after interning `s` into an
/// interner that holds `strings`.
pub open spec fn intern_step(strings: Seq<Seq<char>>, s: Seq<char>) -> (Seq<Seq<char>>, u32) {
    let after = if strings.contains(s) {
        strings
    } else {
        strings.push(s)
    };
    (after, handle_offset(after, s))
}

/// Interning a string a second time gives back the handle of the first
/// time and adds nothing: the strings, and so the arena's bytes, stay as
/// they are.
pub proof fn lemma_intern_idempotent(strings: Seq<Seq<char>>, s: Seq<char>)
    ensures
        intern_step(intern_step(strings, s).0, s) == intern_step(strings, s),
        encode_entries(intern_step(intern_step(strings, s).0, s).0) == encode_entries(
            intern_step(strings, s).0,
        ),
{
    let after = intern_step(strings, s).0;
    if !strings.contains(s) {
        assert(after[strings.len() as int] == s);
    }
    assert(after.contains(s));
}

/// Handle into a [`StringInterner`]: the byte offset of an entry.
#[derive(Debug, PartialEq, Eq, Hash, Clone, Copy, Structural)]
pub struct Handle {
    pub offset: u32,
}

/// The interner's lookup table from string to handle.
#[verifier::external_body]
pub struct InternTable {
    map: hashbrown::HashMap<String, Handle>,
}

/// What an [`InternTable`] holds: each key string with the offset of its handle.
pub uninterp spec fn intern_table_contents(table: InternTable) -> Map<Seq<char>, u32>;

impl InternTable {
    /// Calls `hashbrown::HashMap::new`; the new table is empty.
    #[verifier::external_body]
    fn new() -> (r: InternTable)
        ensures
            intern_table_contents(r).dom().is_empty(),
    {
        InternTable { map: hashbrown::HashMap::new() }
    }

    /// Calls `hashbrown::HashMap::get`; it returns the handle stored under a
    /// key equal to `key`, if any.
    #[verifier::external_body]
    fn get(&self, key: &str) -> (r: Option<Handle>)
        ensures
            r matches Some(h) ==> intern_table_contents(*self).contains_key(key@)
                && intern_table_contents(*self)[key@] == h.offset,
            r is None ==> !intern_table_contents(*self).contains_key(key@),
    {
        self.map.get(key).copied()
    }

    /// Calls `hashbrown::HashMap::insert`; afterwards `key` maps to `handle`
    /// and every other key is as before.
    #[verifier::external_body]
    fn insert(&mut self, key: String, handle: Handle)
        ensures
            intern_table_contents(*final(self)) == intern_table_contents(*old(self)).insert(
                key@,
                handle.offset,
            ),
    {
        self.map.insert(key, handle);
    }
}

/// A read-only string arena, as built by a [`StringInternerBuilder`].
#[derive(Debug, Default)]
pub struct StringInterner {
    data: Vec<u8>,
}

impl View for StringInterner {
    type V = Seq<u8>;

    closed spec fn view(&self) -> Seq<u8> {
        self.data@
    }
}

impl StringInterner {
    /// The arena's bytes.
    pub fn as_bytes(&self) -> (r: &[u8])
        ensures
            r@ == self@,
    {
        self.data.as_slice()
    }

    /// An arena holding exactly `data`.
    pub fn from_bytes(data: Vec<u8>) -> (r: StringInterner)
        ensures
            r@ == data@,
    {
        StringInterner { data }
    }
}

/// A builder for [`StringInterner`].
pub struct StringInternerBuilder {
    data: Vec<u8>,
    lookup: InternTable,
    strings: Ghost<Seq<Seq<char>>>,
}

impl StringInternerBuilder {
    /// The distinct strings interned so far, in the order they were first
    /// interned.
    pub closed spec fn strings(&self) -> Seq<Seq<char>> {
        self.strings@
    }

    /// The builder's bytes are the layout of its strings, each string is
    /// stored once, and the lookup table knows the handle of each.
    pub closed spec fn wf(&self) -> bool {
        &&& self.data@ == encode_entries(self.strings@)
        &&& entries_encodable(self.strings@)
        &&& self.strings@.no_duplicates()
        &&& encode_entries(self.strings@).len() <= u32::MAX
        &&& intern_table_contents(self.lookup).dom() == self.strings@.to_set()
        &&& forall|i: int|
            0 <= i < self.strings@.len() ==> intern_table_contents(self.lookup)[#[trigger] self.strings@[i]]
                == entry_offset(self.strings@, i) as u32
    }

    /// A well formed builder holds distinct strings, each short enough for
    /// its length prefix.
    pub proof fn lemma_wf(&self)
        requires
            self.wf(),
        ensures
            self.strings().no_duplicates(),
            entries_encodable(self.strings()),
            encode_entries(self.strings()).len() <= u32::MAX,
    {
    }

    /// Every handle that a well formed builder has given out resolves, in
    /// its layout, to the string it was given out for.
    pub proof fn lemma_handles_resolve(&self, s: Seq<char>)
        requires
            self.wf(),
            self.strings().contains(s),
        ensures
            entry_readable(encode_entries(self.strings()), handle_offset(self.strings(), s) as int),
            decode_utf8(
                entry_bytes(encode_entries(self.strings()), handle_offset(self.strings(), s) as int),
            ) == s,
    {
        lemma_get_after_intern(self.strings(), s);
    }

    /// Whether interning `value` keeps every offset within what a handle
    /// holds: it is interned already, or its entry ends by `u32::MAX`.
    pub fn fits(&self, value: &str) -> (r: bool)
        requires
            self.wf(),
        ensures
            r == fits_in_handles(self.strings(), value@),
    {
        if self.lookup.get(value).is_some() {
            assert(self.strings@.to_set().contains(value@));
            assert(self.strings@.contains(value@));
            return true;
        }
        assert(!self.strings@.to_set().contains(value@));
        let len = value.as_bytes().len();
        let used = self.data.len();
        assert(used == encode_entries(self.strings@).len());
        assert(len == encode_utf8(value@).len());
        used <= 0xffff_fffd && len <= 0xffff_fffd - used
    }

    /// Create a new, empty builder.
    pub fn new() -> (r: Self)
        ensures
            r.wf(),
            r.strings() == Seq::<Seq<char>>::empty(),
    {
        let r = StringInternerBuilder {
            data: Vec::new(),
            lookup: InternTable::new(),
            strings: Ghost(Seq::empty()),
        };
        assert(r.data@ =~= encode_entries(r.strings@));
        assert(intern_table_contents(r.lookup).dom() =~= r.strings@.to_set());
        r
    }

    /// Intern a string and return a handle to it.
    pub fn intern(&mut self, value: &str) -> (h: Handle)
        requires
            old(self).wf(),
            encode_utf8(value@).len() <= 0xffff,
            fits_in_handles(old(self).strings(), value@),
        ensures
            final(self).wf(),
            final(self).strings() == if old(self).strings().contains(value@) {
                old(self).strings()
            } else {
                old(self).strings().push(value@)
            },
            h.offset == handle_offset(final(self).strings(), value@),
            (final(self).strings(), h.offset) == intern_step(old(self).strings(), value@),
    {
        let ghost strs = self.strings@;
        let ghost tab0 = intern_table_contents(self.lookup);
        assert(tab0.dom() == strs.to_set());
        assert(forall|i: int| 0 <= i < strs.len() ==> tab0[#[trigger] strs[i]] == entry_offset(strs, i) as u32);
        if let Some(handle) = self.lookup.get(value) {
            proof {
                assert(strs.to_set().contains(value@));
                let i = strs.index_of(value@);
                assert(strs.contains(value@));
                assert(0 <= i < strs.len() && strs[i] == value@);
            }
            return handle;
        }
        proof {
            assert(!strs.to_set().contains(value@));
            assert(!strs.contains(value@));
        }
        let offset = self.data.len() as u32;
        let bytes = value.as_bytes();
        let size: usize = bytes.len();
        self.data.push((size % 256) as u8);
        self.data.push((size / 256) as u8);
        let mut k: usize = 0;
        while k < size
            invariant
                k <= size,
                size == bytes@.len(),
                intern_table_contents(self.lookup) == tab0,
                self.data@ == encode_entries(strs) + seq![(size % 256) as u8, (size / 256) as u8]
                    + bytes@.take(k as int),
            decreases size - k,
        {
            self.data.push(bytes[k]);
            assert(bytes@.take(k as int + 1) =~= bytes@.take(k as int).push(bytes@[k as int]));
            k = k + 1;
        }
        let handle = Handle { offset };
        let ghost old_tab = intern_table_contents(self.lookup);
        assert(old_tab == tab0);
        self.lookup.insert(value.to_owned(), handle);
        self.strings = Ghost(strs.push(value@));
        proof {
            let ns = strs.push(value@);
            lemma_encode_entries_push(strs, value@);
            assert(bytes@.take(size as int) =~= bytes@);
            assert(self.data@ =~= encode_entries(ns));
            assert(ns.index_of(value@) == strs.len()) by {
                let j = ns.index_of(value@);
                assert(ns[strs.len() as int] == value@);
                if j != strs.len() {
                    assert(strs[j] == value@);
                }
            }
            assert(ns.take(strs.len() as int) =~= strs);
            assert(entries_encodable(ns)) by {
                assert forall|i: int| 0 <= i < ns.len() implies #[trigger] encode_utf8(ns[i]).len()
                    <= 0xffff by {
                    if i < strs.len() {
                        assert(ns[i] == strs[i]);
                    }
                }
            }
            assert(ns.no_duplicates()) by {
                assert forall|i: int, j: int|
                    0 <= i < ns.len() && 0 <= j < ns.len() && i != j implies ns[i] != ns[j] by {
                    if i < strs.len() && j == strs.len() {
                        assert(strs.contains(strs[i]));
                    }
                    if j < strs.len() && i == strs.len() {
                        assert(strs.contains(strs[j]));
                    }
                }
            }
            let tab = intern_table_contents(self.lookup);
            assert(tab == old_tab.insert(value@, offset));
            assert(tab.dom() =~= ns.to_set()) by {
                assert forall|x: Seq<char>| #[trigger]
                    intern_table_contents(self.lookup).dom().contains(x) implies ns.to_set().contains(
                    x,
                ) by {
                    if x != value@ {
                        assert(old_tab.dom().contains(x));
                        assert(strs.to_set().contains(x));
                        let j = choose|j: int| 0 <= j < strs.len() && strs[j] == x;
                        assert(ns[j] == x);
                    } else {
                        assert(ns[strs.len() as int] == x);
                    }
                }
                assert forall|x: Seq<char>| #[trigger] ns.to_set().contains(x) implies intern_table_contents(
                    self.lookup,
                ).dom().contains(x) by {
                    let j = choose|j: int| 0 <= j < ns.len() && ns[j] == x;
                    if j < strs.len() {
                        assert(strs[j] == x);
                        assert(strs.to_set().contains(x));
                        assert(old_tab.dom().contains(x));
                    }
                }
            }
            assert forall|i: int| 0 <= i < ns.len() implies intern_table_contents(
                self.lookup,
            )[#[trigger] ns[i]] == entry_offset(ns, i) as u32 by {
                if i < strs.len() {
                    assert(ns[i] == strs[i]);
                    assert(ns.take(i) =~= strs.take(i));
                    assert(strs.contains(strs[i]));
                    assert(strs[i] != value@);
                    assert(old_tab[strs[i]] == entry_offset(strs, i) as u32);
                } else {
                    assert(entry_offset(ns, i) == encode_entries(strs).len());
                }
            }
        }
        handle
    }

    /// Finalize the builder and create a readonly version.
    pub fn into_readonly(self) -> (r: StringInterner)
        requires
            self.wf(),
        ensures
            r@ == encode_entries(self.strings()),
    {
        StringInterner { data: self.data }
    }
}

/// The archived (serialised) form of a [`StringInterner`], read from a cache
/// file.
pub struct ArchivedStringInterner {
    data: Vec<u8>,
}

impl View for ArchivedStringInterner {
    type V = Seq<u8>;

    closed spec fn view(&self) -> Seq<u8> {
        self.data@
    }
}

/// Calls `std::str::from_utf8`; it succeeds exactly on valid UTF-8 and then
/// gives the decoded characters.
#[verifier::external_body]
pub(crate) fn utf8_str(bytes: &[u8]) -> (r: Option<&str>)
    ensures
        r is Some <==> valid_utf8(bytes@),
        r matches Some(s) ==> s@ == decode_utf8(bytes@),
{
    std::str::from_utf8(bytes).ok()
}

impl ArchivedStringInterner {
    /// An archived interner over the bytes of an archive's arena.
    pub fn from_bytes(data: Vec<u8>) -> (r: ArchivedStringInterner)
        ensures
            r@ == data@,
    {
        ArchivedStringInterner { data }
    }

    /// Get the string for a given handle
    pub fn get(&self, handle: Handle) -> (r: &str)
        requires
            entry_readable(self@, handle.offset as int),
        ensures
            r@ == decode_utf8(entry_bytes(self@, handle.offset as int)),
    {
        let data = self.get_raw(handle);
        match utf8_str(data) {
            Some(s) => s,
            None => {
                assert(false);
                ""
            },
        }
    }

    /// Get the string for a given handle, or `None` where the handle does
    /// not point at a readable entry.
    pub fn try_get(&self, handle: Handle) -> (r: Option<&str>)
        ensures
            r is Some <==> entry_readable(self@, handle.offset as int),
            r matches Some(s) ==> s@ == decode_utf8(entry_bytes(self@, handle.offset as int)),
    {
        let offset = handle.offset as usize;
        let len = self.data.len();
        if offset >= len || len - offset < 2 {
            return None;
        }
        let size = self.data[offset] as usize + (self.data[offset + 1] as usize) * 256;
        if len - offset - 2 < size {
            return None;
        }
        utf8_str(self.get_raw(handle))
    }

    /// Get the raw bytes for a given handle
    pub fn get_raw(&self, handle: Handle) -> (r: &[u8])
        requires
            entry_fits(self@, handle.offset as int),
        ensures
            r@ == entry_bytes(self@, handle.offset as int),
    {
        let offset = handle.offset as usize;
        let len = self.data.len();
        assert(offset + 2 <= len);
        // The string size is stored at offset (u16, little endian)
        let size = self.data[offset] as usize + (self.data[offset + 1] as usize) * 256;
        // The string itself follows at offset + 2
        let s = self.data.as_slice();
        &s[(offset + 2)..(offset + 2 + size)]
    }

    /// Whether the whole arena reads back as a sequence of entries.
    pub fn entries_valid(&self) -> (r: bool)
        ensures
            r == decode_entries(self@) is Some,
    {
        let mut it = self.iter();
        assert(it.remaining_bytes() =~= self@);
        while it.offset < it.data.len()
            invariant
                it.data@ == self@,
                it.offset <= it.data@.len(),
                decode_entries(self@) is Some <==> decode_entries(it.remaining_bytes()) is Some,
            decreases it.data@.len() - it.offset,
        {
            let offset = it.offset;
            let len = it.data.len();
            let ghost rb = it.remaining_bytes();
            assert(rb.len() == len - offset);
            if len - offset < 2 {
                return false;
            }
            let size = it.data[offset] as usize + (it.data[offset + 1] as usize) * 256;
            proof {
                assert(rb[0] == it.data@[offset as int]);
                assert(rb[1] == it.data@[offset + 1]);
                assert(entry_size(rb, 0) == size);
            }
            if len - offset - 2 < size {
                return false;
            }
            let piece = &it.data[(offset + 2)..(offset + 2 + size)];
            assert(entry_bytes(rb, 0) =~= piece@);
            if utf8_str(piece).is_none() {
                return false;
            }
            proof {
                assert(rb.subrange(entry_end(rb, 0), rb.len() as int) =~= it.data@.subrange(
                    offset + 2 + size,
                    len as int,
                ));
            }
            it.offset = offset + 2 + size;
        }
        true
    }

    /// Iterate over the entries of the arena, in order.
    pub fn iter(&self) -> (r: InternerIter<'_>)
        ensures
            r.data@ == self@,
            r.offset == 0,
    {
        InternerIter { data: self.data.as_slice(), offset: 0 }
    }
}

/// Iterator over the strings of an interner
#[derive(Debug, Clone)]
pub struct InternerIter<'a> {
    pub data: &'a [u8],
    pub offset: usize,
}

impl<'a> InternerIter<'a> {
    /// The bytes not yet read.
    pub open spec fn remaining_bytes(&self) -> Seq<u8> {
        self.data@.subrange(self.offset as int, self.data@.len() as int)
    }

    /// The strings not yet yielded.
    pub open spec fn remaining(&self) -> Seq<Seq<char>> {
        decode_entries(self.remaining_bytes()).unwrap()
    }

    /// The rest of the arena reads back as entries.
    pub open spec fn valid(&self) -> bool {
        &&& self.offset <= self.data@.len()
        &&& decode_entries(self.remaining_bytes()) is Some
    }

    /// Yield the next string, if any.
    pub fn next(&mut self) -> (r: Option<&'a str>)
        requires
            old(self).valid(),
        ensures
            final(self).valid(),
            final(self).data == old(self).data,
            old(self).remaining().len() == 0 ==> r is None && final(self).remaining() == old(
                self,
            ).remaining(),
            old(self).remaining().len() > 0 ==> (r matches Some(s) && s@ == old(self).remaining()[0]
                && final(self).remaining() == old(self).remaining().drop_first()),
    {
        let ghost rb = self.remaining_bytes();
        if self.offset >= self.data.len() {
            assert(rb.len() == 0);
            return None;
        }
        let offset = self.offset;
        let size = self.data[offset] as usize + (self.data[offset + 1] as usize) * 256;
        let start = offset + 2;
        let end = start + size;
        proof {
            assert(rb[0] == self.data@[offset as int]);
            assert(rb[1] == self.data@[offset + 1]);
        }
        let piece = &self.data[start..end];
        proof {
            assert(entry_bytes(rb, 0) =~= piece@);
            assert(rb.subrange(entry_end(rb, 0), rb.len() as int) =~= self.data@.subrange(
                end as int,
                self.data@.len() as int,
            ));
        }
        self.offset = end;
        match utf8_str(piece) {
            Some(s) => {
                proof {
                    let rest = decode_entries(self.remaining_bytes()).unwrap();
                    assert(old(self).remaining() == seq![s@] + rest);
                    assert((seq![s@] + rest).drop_first() =~= rest);
                }
                Some(s)
            },
            None => {
                assert(false);
                None
            },
        }
    }
}

/// Reading back the layout of a builder gives each interned string at the
/// offset of its handle: what `get` reads is what `intern` wrote. It holds
/// while every offset fits in a handle.
pub proof fn lemma_get_after_intern(strings: Seq<Seq<char>>, s: Seq<char>)
    requires
        entries_encodable(strings),
        strings.contains(s),
        encode_entries(strings).len() <= u32::MAX,
    ensures
        entry_readable(encode_entries(strings), handle_offset(strings, s) as int),
        decode_utf8(entry_bytes(encode_entries(strings), handle_offset(strings, s) as int)) == s,
{
    let i = strings.index_of(s);
    lemma_entry_of_layout(strings, i);
    lemma_encode_entries_len(strings, i);
}

/// A handle, once given out, stays the same while further strings are
/// interned.
pub proof fn lemma_handle_stable(strings: Seq<Seq<char>>, s: Seq<char>, t: Seq<char>)
    requires
        strings.no_duplicates(),
        strings.contains(s),
        !strings.contains(t),
    ensures
        handle_offset(strings.push(t), s) == handle_offset(strings, s),
{
    let ns = strings.push(t);
    let i = strings.index_of(s);
    let j = ns.index_of(s);
    assert(ns[i] == s);
    assert(ns.contains(s));
    if j == strings.len() {
        assert(ns[j] == t);
    }
    assert(j < strings.len());
    assert(strings[j] == s);
    assert(i == j) by {
        if i != j {
            assert(strings[i] == strings[j]);
        }
    }
    assert(ns.take(i) =~= strings.take(i));
}

/// Distinct strings get distinct handles while every offset fits in a
/// handle.
pub proof fn lemma_handles_distinct(strings: Seq<Seq<char>>, s: Seq<char>, t: Seq<char>)
    requires
        entries_encodable(strings),
        strings.contains(s),
        strings.contains(t),
        s != t,
        encode_entries(strings).len() <= u32::MAX,
    ensures
        handle_offset(strings, s) != handle_offset(strings, t),
{
    lemma_get_after_intern(strings, s);
    lemma_get_after_intern(strings, t);
}

} // verus!
