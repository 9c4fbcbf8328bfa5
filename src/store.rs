//! Secrets of any length kept in a secure store whose entries are limited in
//! size: a secret is split into numbered chunks, one entry each.
use vstd::prelude::*;
use vstd::string::StringSliceAdditionalSpecFns;
use vstd::utf8::{
    decode_utf8, decode_utf8_split, encode_utf8, encode_utf8_decode_utf8, encode_utf8_valid_utf8,
    is_char_boundary, is_char_boundary_iff_not_is_continuation_byte,
    is_char_boundary_start_end_of_seq, valid_utf8, valid_utf8_split,
};

verus! {

/// Largest number of bytes (of UTF-8 text) kept in one backend entry.
pub const CHUNK_SIZE: usize = 1000;

/// Service under which every entry of the system keyring is filed.
pub const KEYRING_SERVICE_NAME: &'static str = "filen-cli-rs";

// ---------------------------------------------------------------------------
// Entry names
// ---------------------------------------------------------------------------
/// The decimal digit for `d`, which is below ten.
pub open spec fn digit_char(d: nat) -> char {
    if d == 0 {
        '0'
    } else if d == 1 {
        '1'
    } else if d == 2 {
        '2'
    } else if d == 3 {
        '3'
    } else if d == 4 {
        '4'
    } else if d == 5 {
        '5'
    } else if d == 6 {
        '6'
    } else if d == 7 {
        '7'
    } else if d == 8 {
        '8'
    } else {
        '9'
    }
}

/// `n` written in decimal, without sign or leading zeros.
pub open spec fn decimal(n: nat) -> Seq<char>
    decreases n,
{
    if n < 10 {
        seq![digit_char(n)]
    } else {
        decimal(n / 10).push(digit_char(n % 10))
    }
}

/// Name of the backend entry that holds chunk `index` of the secret `name`.
pub open spec fn chunk_key(name: Seq<char>, index: nat) -> Seq<char> {
    name + seq!['_'] + decimal(index)
}

/// Whether `key` names one of the chunks of the secret `name`.
pub open spec fn is_chunk_key(name: Seq<char>, key: Seq<char>) -> bool {
    exists|i: nat| key == #[trigger] chunk_key(name, i)
}

proof fn lemma_decimal_nonempty(n: nat)
    ensures
        decimal(n).len() >= 1,
    decreases n,
{
    if n >= 10 {
        lemma_decimal_nonempty(n / 10);
    }
}

proof fn lemma_decimal_injective(a: nat, b: nat)
    requires
        decimal(a) == decimal(b),
    ensures
        a == b,
    decreases a,
{
    if a < 10 && b < 10 {
        assert(decimal(a)[0] == digit_char(a));
        assert(decimal(b)[0] == digit_char(b));
    } else if a < 10 {
        lemma_decimal_nonempty(b / 10);
        assert(decimal(b).len() >= 2);
    } else if b < 10 {
        lemma_decimal_nonempty(a / 10);
        assert(decimal(a).len() >= 2);
    } else {
        assert(decimal(a).drop_last() =~= decimal(a / 10));
        assert(decimal(b).drop_last() =~= decimal(b / 10));
        lemma_decimal_injective(a / 10, b / 10);
        assert(decimal(a).last() == digit_char(a % 10));
        assert(decimal(b).last() == digit_char(b % 10));
        assert(a % 10 == b % 10);
        assert(a == (a / 10) * 10 + a % 10);
        assert(b == (b / 10) * 10 + b % 10);
    }
}

/// Distinct chunk indexes of one secret have distinct entry names.
pub proof fn lemma_chunk_key_injective(name: Seq<char>)
    ensures
        forall|i: nat, j: nat|
            #[trigger] chunk_key(name, i) == #[trigger] chunk_key(name, j) ==> i == j,
{
    assert forall|i: nat, j: nat| #[trigger]
        chunk_key(name, i) == #[trigger] chunk_key(name, j) implies i == j by {
        let k = chunk_key(name, i);
        let start = name.len() + 1;
        assert(k.subrange(start as int, k.len() as int) =~= decimal(i));
        assert(chunk_key(name, j).subrange(start as int, chunk_key(name, j).len() as int)
            =~= decimal(j));
        lemma_decimal_injective(i, j);
    }
}

/// The one-character text of digit `d`.
fn digit_text(d: usize) -> (r: &'static str)
    requires
        d < 10,
    ensures
        r@ == seq![digit_char(d as nat)],
{
    proof {
        reveal_strlit("0");
        reveal_strlit("1");
        reveal_strlit("2");
        reveal_strlit("3");
        reveal_strlit("4");
        reveal_strlit("5");
        reveal_strlit("6");
        reveal_strlit("7");
        reveal_strlit("8");
        reveal_strlit("9");
    }
    if d == 0 {
        "0"
    } else if d == 1 {
        "1"
    } else if d == 2 {
        "2"
    } else if d == 3 {
        "3"
    } else if d == 4 {
        "4"
    } else if d == 5 {
        "5"
    } else if d == 6 {
        "6"
    } else if d == 7 {
        "7"
    } else if d == 8 {
        "8"
    } else {
        "9"
    }
}

/// The name of the entry holding chunk `index` of `name`: `name_index`.
fn format_chunk_key(name: &str, index: usize) -> (r: String)
    ensures
        r@ == chunk_key(name@, index as nat),
{
    let mut digits = String::from_str(digit_text(index % 10));
    let mut n: usize = index / 10;
    while n > 0
        invariant
            n == 0 ==> decimal(index as nat) == digits@,
            n > 0 ==> decimal(index as nat) == decimal(n as nat) + digits@,
        decreases n,
    {
        let mut longer = String::from_str(digit_text(n % 10));
        longer.append(digits.as_str());
        proof {
            if n >= 10 {
                assert(decimal(n as nat) == decimal((n / 10) as nat).push(digit_char((n % 10) as nat)));
                assert(decimal((n / 10) as nat).push(digit_char((n % 10) as nat)) + digits@
                    =~= decimal((n / 10) as nat) + longer@);
            } else {
                assert(decimal(n as nat) + digits@ =~= longer@);
            }
        }
        digits = longer;
        n = n / 10;
    }
    proof {
        reveal_strlit("_");
    }
    let mut key = String::from_str(name);
    key.append("_");
    key.append(digits.as_str());
    proof {
        assert(key@ =~= chunk_key(name@, index as nat));
    }
    key
}

// ---------------------------------------------------------------------------
// Splitting a secret
// ---------------------------------------------------------------------------
/// Number of chunks that a secret of `len` bytes is split into.
pub open spec fn chunk_count(len: nat) -> nat {
    if len == 0 {
        0
    } else {
        ((len - 1) as nat / CHUNK_SIZE as nat) + 1
    }
}

/// Chunk `i` of the bytes `b`: those from `i * CHUNK_SIZE`, at most
/// `CHUNK_SIZE` of them.
pub open spec fn byte_chunk(b: Seq<u8>, i: nat) -> Seq<u8> {
    let start = i * CHUNK_SIZE;
    let end = if start + CHUNK_SIZE <= b.len() {
        start + CHUNK_SIZE
    } else {
        b.len() as int
    };
    b.subrange(start as int, end)
}

/// Number of chunks of the secret `s`, counted over its UTF-8 bytes.
pub open spec fn chunk_total(s: Seq<char>) -> nat {
    chunk_count(encode_utf8(s).len())
}

/// The text of chunk `i` of the secret `s`: the characters that its bytes
/// `i * CHUNK_SIZE ..` encode.
pub open spec fn chunk_text(s: Seq<char>, i: nat) -> Seq<char> {
    decode_utf8(byte_chunk(encode_utf8(s), i))
}

/// Byte `k * CHUNK_SIZE` of `b` starts a character.
pub open spec fn boundary_at(b: Seq<u8>, k: nat) -> bool {
    is_char_boundary(b, k * CHUNK_SIZE)
}

/// Every multiple of `CHUNK_SIZE` inside `b` starts a character, so that `b`
/// splits into chunks of whole characters.
pub open spec fn splits_cleanly(b: Seq<u8>) -> bool {
    forall|k: nat| 0 < k * CHUNK_SIZE < b.len() ==> #[trigger] boundary_at(b, k)
}

/// Text of one character per byte splits anywhere.
pub proof fn lemma_ascii_splits_cleanly(s: Seq<char>)
    requires
        vstd::utf8::is_ascii_chars(s),
    ensures
        splits_cleanly(encode_utf8(s)),
{
    let b = encode_utf8(s);
    vstd::utf8::is_ascii_chars_encode_utf8(s);
    encode_utf8_valid_utf8(s);
    assert forall|k: nat| 0 < k * CHUNK_SIZE < b.len() implies #[trigger] boundary_at(b, k) by {
        let j = k * CHUNK_SIZE;
        assert(s[j] as u8 == b[j]);
        vstd::utf8::is_ascii_chars_nat_bound(s);
        is_char_boundary_iff_not_is_continuation_byte(b, j);
    }
}

/// A character boundary of `b` strictly inside `p`, a prefix of `b` that ends
/// on a boundary, is one of `p` too; and a suffix of `b` from a boundary
/// keeps the boundaries of `b` after it.
proof fn lemma_boundary_in_part(b: Seq<u8>, start: int, end: int, j: int)
    requires
        valid_utf8(b),
        0 <= start <= j < end <= b.len(),
        valid_utf8(b.subrange(start, end)),
        j == start || is_char_boundary(b, j),
    ensures
        is_char_boundary(b.subrange(start, end), j - start),
{
    let p = b.subrange(start, end);
    if j == start {
        is_char_boundary_start_end_of_seq(p);
    } else {
        is_char_boundary_iff_not_is_continuation_byte(b, j);
        assert(p[j - start] == b[j]);
        is_char_boundary_iff_not_is_continuation_byte(p, j - start);
    }
}

// ---------------------------------------------------------------------------
// Backends
// ---------------------------------------------------------------------------
/// What a backend answered when asked for one entry.
pub enum Lookup {
    /// The entry holds this text.
    Found(String),
    /// There is no such entry.
    Missing,
    /// The backend failed; its message.
    Failed(String),
}

/// What a backend answered when asked to delete one entry.
pub enum Removal {
    /// The entry was there and is gone.
    Removed,
    /// There was no such entry.
    Missing,
    /// The backend failed; its message.
    Failed(String),
}

/// The value stored last under `key` among `entries`, if any.
pub open spec fn lookup(entries: Seq<(String, String)>, key: Seq<char>) -> Option<Seq<char>>
    decreases entries.len(),
{
    if entries.len() == 0 {
        None
    } else if entries.last().0@ == key {
        Some(entries.last().1@)
    } else {
        lookup(entries.drop_last(), key)
    }
}

/// A secure store held in memory, keyed by entry name. Entries can be marked
/// as failing: every operation on them fails, as a real backend may.
pub struct MemoryKeyring {
    entries: Vec<(String, String)>,
    failing: Vec<String>,
}

impl View for MemoryKeyring {
    type V = Map<Seq<char>, Seq<char>>;

    closed spec fn view(&self) -> Map<Seq<char>, Seq<char>> {
        Map::new(
            |k: Seq<char>| lookup(self.entries@, k) is Some,
            |k: Seq<char>| lookup(self.entries@, k)->0,
        )
    }
}

impl MemoryKeyring {
    /// Every operation on the entry `key` fails.
    pub closed spec fn fails(&self, key: Seq<char>) -> bool {
        exists|i: int| 0 <= i < self.failing@.len() && #[trigger] self.failing@[i]@ == key
    }

    pub fn new() -> (r: MemoryKeyring)
        ensures
            r@ == Map::<Seq<char>, Seq<char>>::empty(),
            forall|k: Seq<char>| !r.fails(k),
    {
        let r = MemoryKeyring { entries: Vec::new(), failing: Vec::new() };
        assert(r@ =~= Map::<Seq<char>, Seq<char>>::empty());
        r
    }

    /// The value stored under `key`.
    pub fn get(&self, key: &str) -> (r: Option<String>)
        ensures
            r is Some <==> self@.contains_key(key@),
            r is Some ==> r->0@ == self@[key@],
    {
        let k = String::from_str(key);
        let mut j: usize = self.entries.len();
        assert(self.entries@.subrange(0, j as int) =~= self.entries@);
        while j > 0
            invariant
                j <= self.entries@.len(),
                k@ == key@,
                lookup(self.entries@, key@) == lookup(self.entries@.subrange(0, j as int), key@),
            decreases j,
        {
            assert(self.entries@.subrange(0, j as int).drop_last() =~= self.entries@.subrange(
                0,
                j - 1,
            ));
            let e = &self.entries[j - 1];
            if e.0 == k {
                return Some(e.1.clone());
            }
            j = j - 1;
        }
        None
    }

    /// Deletes the entry `key`; the result tells whether there was one.
    pub fn remove(&mut self, key: &str) -> (r: bool)
        ensures
            r == old(self)@.contains_key(key@),
            final(self)@ == old(self)@.remove(key@),
            forall|k: Seq<char>| #[trigger] final(self).fails(k) == old(self).fails(k),
    {
        let k = String::from_str(key);
        let mut kept: Vec<(String, String)> = Vec::new();
        let mut found = false;
        let mut i: usize = 0;
        let n = self.entries.len();
        while i < n
            invariant
                i <= n,
                n == self.entries@.len(),
                k@ == key@,
                found == (lookup(self.entries@.subrange(0, i as int), key@) is Some),
                forall|q: Seq<char>|
                    #[trigger] lookup(kept@, q) == if q == key@ {
                        None
                    } else {
                        lookup(self.entries@.subrange(0, i as int), q)
                    },
            decreases n - i,
        {
            let ghost before = kept@;
            assert(self.entries@.subrange(0, i + 1).drop_last() =~= self.entries@.subrange(
                0,
                i as int,
            ));
            let e = &self.entries[i];
            let ghost cur = self.entries@.subrange(0, i + 1);
            assert(cur.last() == self.entries@[i as int]);
            if e.0 == k {
                found = true;
                assert forall|q: Seq<char>|
                    #[trigger] lookup(kept@, q) == if q == key@ {
                        None
                    } else {
                        lookup(cur, q)
                    } by {}
            } else {
                kept.push((e.0.clone(), e.1.clone()));
                assert(kept@.drop_last() =~= before);
                assert forall|q: Seq<char>|
                    #[trigger] lookup(kept@, q) == if q == key@ {
                        None
                    } else {
                        lookup(cur, q)
                    } by {
                    assert(kept@.last().0@ == e.0@);
                    assert(kept@.last().1@ == e.1@);
                    assert(lookup(kept@.drop_last(), q) == lookup(before, q));
                    assert(cur.drop_last() =~= self.entries@.subrange(0, i as int));
                }
            }
            i = i + 1;
        }
        assert(self.entries@.subrange(0, n as int) =~= self.entries@);
        let ghost prev = self@;
        self.entries = kept;
        assert(self@ =~= prev.remove(key@));
        assert forall|q: Seq<char>| #[trigger] self.fails(q) == old(self).fails(q) by {
            assert(self.failing@ == old(self).failing@);
        }
        found
    }

    /// Makes every later operation on the entry `key` fail.
    pub fn fail_on(&mut self, key: &str)
        ensures
            final(self)@ == old(self)@,
            forall|k: Seq<char>| #[trigger] final(self).fails(k) == (old(self).fails(k) || k == key@),
    {
        let ghost before = self.failing@;
        self.failing.push(String::from_str(key));
        proof {
            assert forall|k: Seq<char>| #[trigger] self.fails(k) == (old(self).fails(k) || k == key@) by {
                if old(self).fails(k) {
                    let i = choose|i: int| 0 <= i < before.len() && #[trigger] before[i]@ == k;
                    assert(self.failing@[i] == before[i]);
                }
                if k == key@ {
                    assert(self.failing@[before.len() as int]@ == k);
                }
                if self.fails(k) {
                    let i = choose|i: int| 0 <= i < self.failing@.len() && #[trigger] self.failing@[i]@ == k;
                    if i < before.len() {
                        assert(before[i] == self.failing@[i]);
                    }
                }
            }
        }
    }

    /// Whether operations on the entry `key` fail.
    pub fn is_failing(&self, key: &str) -> (r: bool)
        ensures
            r == self.fails(key@),
    {
        let k = String::from_str(key);
        let mut i: usize = 0;
        while i < self.failing.len()
            invariant
                i <= self.failing@.len(),
                k@ == key@,
                forall|j: int| 0 <= j < i ==> #[trigger] self.failing@[j]@ != key@,
            decreases self.failing@.len() - i,
        {
            if self.failing[i] == k {
                return true;
            }
            i = i + 1;
        }
        false
    }

    /// Stores `value` under `key`, replacing any earlier value.
    pub fn set(&mut self, key: &str, value: &str)
        ensures
            final(self)@ == old(self)@.insert(key@, value@),
            forall|k: Seq<char>| #[trigger] final(self).fails(k) == old(self).fails(k),
    {
        self.remove(key);
        let ghost mid = *self;
        let ghost prev = self@;
        let ghost before = self.entries@;
        self.entries.push((String::from_str(key), String::from_str(value)));
        assert(self.entries@.drop_last() =~= before);
        assert(self@ =~= prev.insert(key@, value@));
        assert forall|q: Seq<char>| #[trigger] self.fails(q) == old(self).fails(q) by {
            assert(self.failing@ == mid.failing@);
            assert(mid.fails(q) == old(self).fails(q));
        }
    }
}

/// Where chunks are kept: the system keyring, or a store in memory.
pub enum SecretBackend {
    /// The operating system's keyring, under `KEYRING_SERVICE_NAME`.
    System,
    /// A store in memory, whose entries are known to the contracts.
    Memory(MemoryKeyring),
}

impl SecretBackend {
    pub open spec fn is_memory(&self) -> bool {
        self is Memory
    }

    /// The entries of an in-memory backend. The system keyring's entries
    /// are not known here, so nothing is said of them.
    pub open spec fn contents(&self) -> Map<Seq<char>, Seq<char>> {
        match self {
            SecretBackend::Memory(m) => m@,
            SecretBackend::System => vstd::pervasive::arbitrary(),
        }
    }

    /// Operations on the entry `key` of an in-memory backend fail.
    pub open spec fn fails_on(&self, key: Seq<char>) -> bool {
        match self {
            SecretBackend::Memory(m) => m.fails(key),
            SecretBackend::System => vstd::pervasive::arbitrary(),
        }
    }

    /// `a` is what this in-memory backend answers when asked for `key`.
    pub open spec fn answers_get(&self, key: Seq<char>, a: Lookup) -> bool {
        match a {
            Lookup::Found(v) => !self.fails_on(key) && self.contents().contains_key(key) && v@
                == self.contents()[key],
            Lookup::Missing => !self.fails_on(key) && !self.contents().contains_key(key),
            Lookup::Failed(_) => self.fails_on(key),
        }
    }

    /// `a` is what this in-memory backend answers when asked to delete `key`.
    pub open spec fn answers_remove(&self, key: Seq<char>, a: Removal) -> bool {
        match a {
            Removal::Removed => !self.fails_on(key) && self.contents().contains_key(key),
            Removal::Missing => !self.fails_on(key) && !self.contents().contains_key(key),
            Removal::Failed(_) => self.fails_on(key),
        }
    }

    /// `a` is what this in-memory backend answers when asked to set `key`.
    pub open spec fn answers_set(&self, key: Seq<char>, a: Result<(), String>) -> bool {
        a is Err <==> self.fails_on(key)
    }

}

/// `a` and `b` fail on the same entries.
pub open spec fn same_failures(a: SecretBackend, b: SecretBackend) -> bool {
    forall|k: Seq<char>| #[trigger] a.fails_on(k) == b.fails_on(k)
}

#[verifier::external_type_specification]
#[verifier::external_body]
pub struct ExKeyringEntry(keyring::Entry);

/// Relies on keyring::Entry::new: a handle on the entry `user` of
/// `service`, or the keyring's error as text.
#[verifier::external_body]
fn keyring_open(service: &str, user: &str) -> (r: Result<keyring::Entry, String>) {
    keyring::Entry::new(service, user).map_err(|e| e.to_string())
}

/// Relies on keyring::Entry::get_password: the stored text, `NoEntry` when
/// there is none, another error otherwise.
#[verifier::external_body]
fn keyring_get(entry: &keyring::Entry) -> (r: Lookup) {
    match entry.get_password() {
        Ok(v) => Lookup::Found(v),
        Err(keyring::Error::NoEntry) => Lookup::Missing,
        Err(e) => Lookup::Failed(e.to_string()),
    }
}

/// Relies on keyring::Entry::set_password: stores the text, or fails.
#[verifier::external_body]
fn keyring_set(entry: &keyring::Entry, value: &str) -> (r: Result<(), String>) {
    entry.set_password(value).map_err(|e| e.to_string())
}

/// Relies on keyring::Entry::delete_credential: deletes the entry, `NoEntry`
/// when there is none, another error otherwise.
#[verifier::external_body]
fn keyring_delete(entry: &keyring::Entry) -> (r: Removal) {
    match entry.delete_credential() {
        Ok(()) => Removal::Removed,
        Err(keyring::Error::NoEntry) => Removal::Missing,
        Err(e) => Removal::Failed(e.to_string()),
    }
}

fn backend_get(backend: &SecretBackend, key: &str) -> (r: Lookup)
    ensures
        backend.is_memory() ==> backend.answers_get(key@, r),
{
    match backend {
        SecretBackend::Memory(m) => {
            if m.is_failing(key) {
                Lookup::Failed(String::from_str("entry unavailable"))
            } else {
                match m.get(key) {
                    Some(v) => Lookup::Found(v),
                    None => Lookup::Missing,
                }
            }
        },
        SecretBackend::System => match keyring_open(KEYRING_SERVICE_NAME, key) {
            Ok(entry) => keyring_get(&entry),
            Err(msg) => Lookup::Failed(msg),
        },
    }
}

fn backend_set(backend: &mut SecretBackend, key: &str, value: &str) -> (r: Result<(), String>)
    ensures
        old(backend).is_memory() <==> final(backend).is_memory(),
        old(backend).is_memory() ==> old(backend).answers_set(key@, r) && same_failures(*final(backend), *old(backend)) && final(backend).contents() == (if r is Ok {
            old(backend).contents().insert(key@, value@)
        } else {
            old(backend).contents()
        }),
{
    match backend {
        SecretBackend::Memory(m) => {
            if m.is_failing(key) {
                Err(String::from_str("entry unavailable"))
            } else {
                m.set(key, value);
                Ok(())
            }
        },
        SecretBackend::System => match keyring_open(KEYRING_SERVICE_NAME, key) {
            Ok(entry) => keyring_set(&entry, value),
            Err(msg) => Err(msg),
        },
    }
}

fn backend_remove(backend: &mut SecretBackend, key: &str) -> (r: Removal)
    ensures
        old(backend).is_memory() <==> final(backend).is_memory(),
        old(backend).is_memory() ==> old(backend).answers_remove(key@, r) && same_failures(*final(backend), *old(backend)) && final(backend).contents() == (if r is Failed {
            old(backend).contents()
        } else {
            old(backend).contents().remove(key@)
        }),
{
    match backend {
        SecretBackend::Memory(m) => {
            if m.is_failing(key) {
                Removal::Failed(String::from_str("entry unavailable"))
            } else if m.remove(key) {
                Removal::Removed
            } else {
                Removal::Missing
            }
        },
        SecretBackend::System => match keyring_open(KEYRING_SERVICE_NAME, key) {
            Ok(entry) => keyring_delete(&entry),
            Err(msg) => Removal::Failed(msg),
        },
    }
}

// ---------------------------------------------------------------------------
// Chunked secrets
// ---------------------------------------------------------------------------
/// Failure of an operation on a chunked secret.
pub enum StoreError {
    /// The backend failed with something other than "no such entry".
    Backend(String),
    /// The next chunk index would not fit in a `usize`.
    TooManyChunks,
}

/// Chunks `0 .. n` of `name` are all present in `m`.
pub open spec fn holds_chunks(m: Map<Seq<char>, Seq<char>>, name: Seq<char>, n: nat) -> bool {
    forall|i: nat| i < n ==> m.contains_key(#[trigger] chunk_key(name, i))
}

/// A reader of `name` finds exactly `n` chunks in `m`: those before the first
/// missing index.
pub open spec fn chunk_run(m: Map<Seq<char>, Seq<char>>, name: Seq<char>, n: nat) -> bool {
    holds_chunks(m, name, n) && !m.contains_key(chunk_key(name, n))
}

/// Chunks `0 .. n` of `name` in `m`, joined in index order.
pub open spec fn joined(m: Map<Seq<char>, Seq<char>>, name: Seq<char>, n: nat) -> Seq<char>
    decreases n,
{
    if n == 0 {
        Seq::empty()
    } else {
        joined(m, name, (n - 1) as nat) + m[chunk_key(name, (n - 1) as nat)]
    }
}

/// Reading `name` from `m` gives `s`: the chunks before the first missing
/// index, joined in order.
pub open spec fn reads_as(m: Map<Seq<char>, Seq<char>>, name: Seq<char>, s: Seq<char>) -> bool {
    exists|n: nat| #[trigger] chunk_run(m, name, n) && s == joined(m, name, n)
}

/// Entry `k` is the same in `before` and `after`.
pub open spec fn unchanged_at(
    before: Map<Seq<char>, Seq<char>>,
    after: Map<Seq<char>, Seq<char>>,
    k: Seq<char>,
) -> bool {
    after.contains_key(k) == before.contains_key(k) && (before.contains_key(k) ==> after[k]
        == before[k])
}

/// `after` is `before` once `s` was written under `name`: its chunks stand at
/// indexes `0 .. chunk_total`, the index right after them is free (stale
/// chunks of a longer earlier secret are gone), and entries that are no chunk
/// of `name` are untouched.
pub open spec fn written(
    before: Map<Seq<char>, Seq<char>>,
    after: Map<Seq<char>, Seq<char>>,
    name: Seq<char>,
    s: Seq<char>,
) -> bool {
    &&& forall|i: nat|
        i < chunk_total(s) ==> after.contains_key(#[trigger] chunk_key(name, i))
            && after[chunk_key(name, i)] == chunk_text(s, i)
    &&& !after.contains_key(chunk_key(name, chunk_total(s)))
    &&& forall|k: Seq<char>| !is_chunk_key(name, k) ==> #[trigger] unchanged_at(before, after, k)
}

/// `m` without chunks `0 .. n` of `name`.
pub open spec fn without_chunks(m: Map<Seq<char>, Seq<char>>, name: Seq<char>, n: nat) -> Map<
    Seq<char>,
    Seq<char>,
>
    decreases n,
{
    if n == 0 {
        m
    } else {
        without_chunks(m, name, (n - 1) as nat).remove(chunk_key(name, (n - 1) as nat))
    }
}

/// `after` is `before` once `name` was deleted: the chunks that a reader
/// would have found are removed, and nothing else.
pub open spec fn deleted(
    before: Map<Seq<char>, Seq<char>>,
    after: Map<Seq<char>, Seq<char>>,
    name: Seq<char>,
) -> bool {
    exists|n: nat| #[trigger] chunk_run(before, name, n) && after == without_chunks(before, name, n)
}

/// The text of the chunks found among `answers`, joined in order.
pub open spec fn found_text(answers: Seq<Lookup>) -> Seq<char>
    decreases answers.len(),
{
    if answers.len() == 0 {
        Seq::empty()
    } else {
        found_text(answers.drop_last()) + match answers.last() {
            Lookup::Found(v) => v@,
            _ => Seq::<char>::empty(),
        }
    }
}

/// `r` reports the backend failure `m`.
pub open spec fn reports_failure<T>(r: Result<T, StoreError>, m: Seq<char>) -> bool {
    match r {
        Err(StoreError::Backend(e)) => e@ == m,
        _ => false,
    }
}

/// `r` is what a read gives when the backend answered `answers` for chunks
/// 0, 1, 2, ... in turn: it goes on while chunks are found, returns their
/// text at the first missing one, and the backend's error at the first
/// failure.
pub open spec fn read_outcome(answers: Seq<Lookup>, r: Result<String, StoreError>) -> bool {
    &&& answers.len() >= 1
    &&& forall|i: int| 0 <= i < answers.len() - 1 ==> #[trigger] answers[i] is Found
    &&& match answers.last() {
        Lookup::Missing => r is Ok && r->Ok_0@ == found_text(answers.drop_last()),
        Lookup::Failed(m) => reports_failure(r, m@),
        Lookup::Found(_) => answers.len() == usize::MAX + 1 && r is Err && r->Err_0 is TooManyChunks,
    }
}

/// `r` is what deleting chunks `start`, `start + 1`, ... gives when the
/// backend answered `answers` in turn: it goes on while chunks are removed,
/// succeeds at the first missing one, and returns the backend's error at the
/// first failure.
pub open spec fn removal_outcome(start: nat, answers: Seq<Removal>, r: Result<(), StoreError>) -> bool {
    &&& answers.len() >= 1
    &&& forall|i: int| 0 <= i < answers.len() - 1 ==> #[trigger] answers[i] is Removed
    &&& match answers.last() {
        Removal::Missing => r is Ok,
        Removal::Failed(m) => reports_failure(r, m@),
        Removal::Removed => start + answers.len() == usize::MAX + 1 && r is Err && r->Err_0 is TooManyChunks,
    }
}

/// `r` is what writing a secret of `count` chunks gives when the backend
/// answered `sets` to the chunks set in turn, then `removals` to the
/// deletions of stale chunks from index `count` on: the first failed set
/// ends the write with its error and nothing is deleted; otherwise every
/// chunk was set and the deletions decide.
pub open spec fn write_outcome(
    count: nat,
    sets: Seq<Result<(), String>>,
    removals: Seq<Removal>,
    r: Result<(), StoreError>,
) -> bool {
    &&& sets.len() <= count
    &&& forall|i: int| 0 <= i < sets.len() - 1 ==> #[trigger] sets[i] is Ok
    &&& if sets.len() > 0 && sets.last() is Err {
        removals.len() == 0 && reports_failure(r, sets.last()->Err_0@)
    } else {
        sets.len() == count && removal_outcome(count, removals, r)
    }
}

/// One step of a read: the text gathered so far, `acc`, and the backend's
/// answer for the next chunk give the text gathered with it (`Some`), the
/// end of the secret (`None`: the secret is `acc`), or the backend's error.
pub fn read_step(acc: &str, answer: Lookup) -> (r: Result<Option<String>, StoreError>)
    ensures
        match answer {
            Lookup::Found(v) => r is Ok && r->Ok_0 is Some && r->Ok_0->0@ == acc@ + v@,
            Lookup::Missing => r is Ok && r->Ok_0 is None,
            Lookup::Failed(m) => reports_failure(r, m@),
        },
{
    match answer {
        Lookup::Found(v) => {
            let mut s = String::from_str(acc);
            s.append(v.as_str());
            Ok(Some(s))
        },
        Lookup::Missing => Ok(None),
        Lookup::Failed(m) => Err(StoreError::Backend(m)),
    }
}

/// One step of a deletion: whether to go on with the next chunk (`true`),
/// stop because this one was missing (`false`), or fail with the backend's
/// error.
pub fn delete_step(answer: Removal) -> (r: Result<bool, StoreError>)
    ensures
        match answer {
            Removal::Removed => r == Ok::<bool, StoreError>(true),
            Removal::Missing => r == Ok::<bool, StoreError>(false),
            Removal::Failed(m) => reports_failure(r, m@),
        },
{
    match answer {
        Removal::Removed => Ok(true),
        Removal::Missing => Ok(false),
        Removal::Failed(m) => Err(StoreError::Backend(m)),
    }
}

/// The entries that writing `secret` under `name` sets, in order: under
/// `name_i`, the characters of bytes `i * CHUNK_SIZE ..` of the secret, at
/// most `CHUNK_SIZE` bytes of them.
pub fn chunk_plan(name: &str, secret: &str) -> (r: Vec<(String, String)>)
    requires
        splits_cleanly(secret.spec_bytes()),
    ensures
        r@.len() == chunk_total(secret@),
        forall|i: int|
            0 <= i < r@.len() ==> (#[trigger] r@[i]).0@ == chunk_key(name@, i as nat) && r@[i].1@
                == chunk_text(secret@, i as nat),
{
    broadcast use encode_utf8_decode_utf8, encode_utf8_valid_utf8;

    let ghost b = secret.spec_bytes();
    let len = secret.as_bytes().len();
    let mut plan: Vec<(String, String)> = Vec::new();
    let mut rest: &str = secret;
    let mut pos: usize = 0;
    let mut i: usize = 0;
    proof {
        assert(b.subrange(0, len as int) =~= b);
    }
    while pos < len
        invariant
            pos <= i * CHUNK_SIZE,
            pos < len ==> pos == i * CHUNK_SIZE,
            pos <= len,
            i > 0 ==> (i - 1) * CHUNK_SIZE < len,
            len == b.len(),
            b == secret.spec_bytes(),
            splits_cleanly(b),
            pos < len ==> rest.spec_bytes() == b.subrange(pos as int, len as int),
            plan@.len() == i,
            forall|j: int|
                0 <= j < i ==> (#[trigger] plan@[j]).0@ == chunk_key(name@, j as nat)
                    && plan@[j].1@ == chunk_text(secret@, j as nat),
        decreases len - pos,
    {
        let key = format_chunk_key(name, i);
        let ghost rb = rest.spec_bytes();
        if len - pos > CHUNK_SIZE {
            proof {
                assert(boundary_at(b, (i + 1) as nat));
                encode_utf8_valid_utf8(rest@);
                encode_utf8_valid_utf8(secret@);
                assert(valid_utf8(rb));
                assert(valid_utf8(b));
                lemma_boundary_in_part(b, pos as int, len as int, pos + CHUNK_SIZE);
            }
            let (head, tail) = rest.split_at(CHUNK_SIZE);
            proof {
                assert(head.spec_bytes() =~= byte_chunk(b, i as nat));
                encode_utf8_decode_utf8(head@);
                assert(head@ == chunk_text(secret@, i as nat));
                assert(tail.spec_bytes() =~= b.subrange(pos + CHUNK_SIZE, len as int));
            }
            plan.push((key, String::from_str(head)));
            rest = tail;
            pos = pos + CHUNK_SIZE;
        } else {
            proof {
                assert(rb =~= byte_chunk(b, i as nat));
                encode_utf8_decode_utf8(rest@);
                assert(rest@ == chunk_text(secret@, i as nat));
            }
            plan.push((key, String::from_str(rest)));
            pos = len;
        }
        i = i + 1;
    }
    assert(i == chunk_count(len as nat));
    plan
}

/// `after` is `before` once writing `s` under `name` stopped at a failure on
/// chunk `j`: the chunks before it are written, chunk `j` and those after it
/// are untouched, and so is every entry that is no chunk of `name`.
pub open spec fn stopped_at(
    before: Map<Seq<char>, Seq<char>>,
    after: Map<Seq<char>, Seq<char>>,
    name: Seq<char>,
    s: Seq<char>,
    j: nat,
) -> bool {
    &&& forall|i: nat|
        i < j && i < chunk_total(s) ==> after.contains_key(#[trigger] chunk_key(name, i))
            && after[chunk_key(name, i)] == chunk_text(s, i)
    &&& forall|q: nat| q >= j ==> #[trigger] unchanged_at(before, after, chunk_key(name, q))
    &&& forall|k: Seq<char>| !is_chunk_key(name, k) ==> #[trigger] unchanged_at(before, after, k)
}

/// A secret of any length, kept as numbered chunks under one name.
pub struct LongKeyringEntry {
    pub name: String,
}

impl LongKeyringEntry {
    pub fn new(name: &str) -> (r: LongKeyringEntry)
        ensures
            r.name@ == name@,
    {
        LongKeyringEntry { name: String::from_str(name) }
    }

    /// Reads the secret from the system keyring.
    pub fn read(&self) -> (r: Result<String, StoreError>)
        ensures
            exists|answers: Seq<Lookup>| read_outcome(answers, r),
    {
        self.read_from(&SecretBackend::System)
    }

    /// Writes the secret to the system keyring.
    pub fn write(&self, secret: &str) -> (r: Result<(), StoreError>)
        requires
            splits_cleanly(secret.spec_bytes()),
        ensures
            exists|sets: Seq<Result<(), String>>, removals: Seq<Removal>|
                write_outcome(chunk_total(secret@), sets, removals, r),
    {
        let mut backend = SecretBackend::System;
        self.write_to(&mut backend, secret)
    }

    /// Deletes the secret from the system keyring.
    pub fn delete(&self) -> (r: Result<(), StoreError>)
        ensures
            exists|answers: Seq<Removal>| removal_outcome(0, answers, r),
    {
        let mut backend = SecretBackend::System;
        self.delete_from(&mut backend)
    }

    /// Reads chunks 0, 1, 2, ... and joins them, up to the first missing one;
    /// with no chunk 0 the secret is empty. A backend failure ends the read
    /// with that failure.
    pub fn read_from(&self, backend: &SecretBackend) -> (r: Result<String, StoreError>)
        ensures
            exists|answers: Seq<Lookup>|
                read_outcome(answers, r) && (backend.is_memory() ==> forall|i: int|
                    0 <= i < answers.len() ==> backend.answers_get(
                        chunk_key(self.name@, i as nat),
                        #[trigger] answers[i],
                    )),
            backend.is_memory() ==> match r {
                Ok(s) => reads_as(backend.contents(), self.name@, s@),
                Err(e) => e is TooManyChunks ==> holds_chunks(
                    backend.contents(),
                    self.name@,
                    usize::MAX as nat,
                ),
            },
    {
        let ghost m = backend.contents();
        let ghost name = self.name@;
        let ghost answers: Seq<Lookup> = Seq::empty();
        let mut result = String::new();
        let mut i: usize = 0;
        loop
            invariant
                backend.is_memory() ==> holds_chunks(m, name, i as nat) && result@ == joined(
                    m,
                    name,
                    i as nat,
                ),
                m == backend.contents(),
                name == self.name@,
                answers.len() == i,
                forall|j: int| 0 <= j < answers.len() ==> #[trigger] answers[j] is Found,
                result@ == found_text(answers),
                backend.is_memory() ==> forall|j: int|
                    0 <= j < answers.len() ==> backend.answers_get(
                        chunk_key(name, j as nat),
                        #[trigger] answers[j],
                    ),
            decreases usize::MAX - i,
        {
            let key = format_chunk_key(self.name.as_str(), i);
            let answer = backend_get(backend, key.as_str());
            let ghost a = answer;
            let ghost next = answers.push(a);
            proof {
                assert(next.drop_last() =~= answers);
                if backend.is_memory() {
                    assert forall|j: int| 0 <= j < next.len() implies backend.answers_get(
                        chunk_key(name, j as nat),
                        #[trigger] next[j],
                    ) by {
                        if j < answers.len() {
                            assert(next[j] == answers[j]);
                        }
                    }
                }
            }
            match read_step(result.as_str(), answer) {
                Ok(Some(s)) => {
                    result = s;
                },
                Ok(None) => {
                    proof {
                        assert(read_outcome(next, Ok::<String, StoreError>(result)));
                        if backend.is_memory() {
                            assert(chunk_run(m, name, i as nat));
                        }
                    }
                    return Ok(result);
                },
                Err(e) => {
                    proof {
                        assert(read_outcome(next, Err::<String, StoreError>(e)));
                    }
                    return Err(e);
                },
            }
            proof {
                answers = next;
                if backend.is_memory() {
                    assert(holds_chunks(m, name, (i + 1) as nat));
                }
            }
            if i == usize::MAX {
                proof {
                    assert(read_outcome(answers, Err::<String, StoreError>(StoreError::TooManyChunks)));
                }
                return Err(StoreError::TooManyChunks);
            }
            i = i + 1;
        }
    }

    /// Sets the entries of `chunk_plan` in order, then deletes the chunks
    /// that an earlier, longer secret left after them. The first backend
    /// failure ends the write with that failure.
    pub fn write_to(&self, backend: &mut SecretBackend, secret: &str) -> (r: Result<
        (),
        StoreError,
    >)
        requires
            splits_cleanly(secret.spec_bytes()),
        ensures
            old(backend).is_memory() <==> final(backend).is_memory(),
            exists|sets: Seq<Result<(), String>>, removals: Seq<Removal>|
                write_outcome(chunk_total(secret@), sets, removals, r) && (old(backend).is_memory()
                    ==> (forall|i: int|
                    0 <= i < sets.len() ==> old(backend).answers_set(
                        chunk_key(self.name@, i as nat),
                        #[trigger] sets[i],
                    )) && (forall|q: int|
                    0 <= q < removals.len() ==> old(backend).answers_remove(
                        chunk_key(self.name@, (chunk_total(secret@) + q) as nat),
                        #[trigger] removals[q],
                    ))),
            old(backend).is_memory() ==> match r {
                Ok(()) => written(old(backend).contents(), final(backend).contents(), self.name@, secret@),
                Err(StoreError::TooManyChunks) => forall|q: nat|
                    chunk_total(secret@) <= q <= usize::MAX ==> old(
                        backend,
                    ).contents().contains_key(#[trigger] chunk_key(self.name@, q)),
                Err(StoreError::Backend(_)) => exists|j: nat|
                    old(backend).fails_on(chunk_key(self.name@, j)) && #[trigger] stopped_at(
                        old(backend).contents(),
                        final(backend).contents(),
                        self.name@,
                        secret@,
                        j,
                    ),
            },
    {
        let ghost m0 = backend.contents();
        let ghost name = self.name@;
        let ghost s = secret@;
        proof {
            lemma_chunk_key_injective(name);
        }
        let plan = chunk_plan(self.name.as_str(), secret);
        let count = plan.len();
        let ghost sets: Seq<Result<(), String>> = Seq::empty();
        let mut i: usize = 0;
        while i < count
            invariant
                i <= count,
                count == plan@.len(),
                count == chunk_total(s),
                forall|j: int|
                    0 <= j < plan@.len() ==> (#[trigger] plan@[j]).0@ == chunk_key(name, j as nat)
                        && plan@[j].1@ == chunk_text(s, j as nat),
                name == self.name@,
                s == secret@,
                sets.len() == i,
                forall|j: int| 0 <= j < sets.len() ==> #[trigger] sets[j] is Ok,
                old(backend).is_memory() <==> backend.is_memory(),
                backend.is_memory() ==> same_failures(*backend, *old(backend)),
                backend.is_memory() ==> forall|j: int|
                    0 <= j < sets.len() ==> old(backend).answers_set(
                        chunk_key(name, j as nat),
                        #[trigger] sets[j],
                    ),
                m0 == old(backend).contents(),
                forall|a: nat, b: nat|
                    #[trigger] chunk_key(name, a) == #[trigger] chunk_key(name, b) ==> a == b,
                backend.is_memory() ==> forall|j: nat|
                    j < i ==> backend.contents().contains_key(#[trigger] chunk_key(name, j))
                        && backend.contents()[chunk_key(name, j)] == chunk_text(s, j),
                backend.is_memory() ==> forall|k: Seq<char>|
                    !is_chunk_key(name, k) ==> #[trigger] unchanged_at(m0, backend.contents(), k),
                backend.is_memory() ==> forall|q: nat|
                    q >= i ==> #[trigger] unchanged_at(m0, backend.contents(), chunk_key(name, q)),
            decreases count - i,
        {
            let entry = &plan[i];
            assert(entry.0@ == chunk_key(name, i as nat));
            let ghost before = backend.contents();
            let answer = backend_set(backend, entry.0.as_str(), entry.1.as_str());
            let ghost next = sets.push(answer);
            proof {
                assert(next.drop_last() =~= sets);
                if backend.is_memory() {
                    assert(old(backend).fails_on(chunk_key(name, i as nat)) == backend.fails_on(
                        chunk_key(name, i as nat),
                    ));
                    assert forall|j: int| 0 <= j < next.len() implies old(backend).answers_set(
                        chunk_key(name, j as nat),
                        #[trigger] next[j],
                    ) by {
                        if j < sets.len() {
                            assert(next[j] == sets[j]);
                        }
                    }
                }
            }
            match answer {
                Ok(()) => {},
                Err(msg) => {
                    proof {
                        if backend.is_memory() {
                            assert(stopped_at(m0, backend.contents(), name, s, i as nat));
                        }
                        assert(write_outcome(
                            count as nat,
                            next,
                            Seq::empty(),
                            Err::<(), StoreError>(StoreError::Backend(msg)),
                        ));
                    }
                    return Err(StoreError::Backend(msg));
                },
            }
            proof {
                sets = next;
                if backend.is_memory() {
                    let after = backend.contents();
                    assert forall|k: Seq<char>| !is_chunk_key(name, k) implies #[trigger] unchanged_at(
                        m0,
                        after,
                        k,
                    ) by {
                        assert(unchanged_at(m0, before, k));
                        assert(k != chunk_key(name, i as nat));
                    }
                    assert forall|q: nat| q >= i + 1 implies #[trigger] unchanged_at(
                        m0,
                        after,
                        chunk_key(name, q),
                    ) by {
                        assert(unchanged_at(m0, before, chunk_key(name, q)));
                        assert(chunk_key(name, q) != chunk_key(name, i as nat));
                    }
                }
            }
            i = i + 1;
        }
        let ghost removals: Seq<Removal> = Seq::empty();
        let mut j: usize = count;
        loop
            invariant
                count <= j,
                count == chunk_total(s),
                name == self.name@,
                s == secret@,
                sets.len() == count,
                forall|q: int| 0 <= q < sets.len() ==> #[trigger] sets[q] is Ok,
                removals.len() == j - count,
                forall|q: int| 0 <= q < removals.len() ==> #[trigger] removals[q] is Removed,
                old(backend).is_memory() <==> backend.is_memory(),
                backend.is_memory() ==> same_failures(*backend, *old(backend)),
                backend.is_memory() ==> forall|q: int|
                    0 <= q < sets.len() ==> old(backend).answers_set(
                        chunk_key(name, q as nat),
                        #[trigger] sets[q],
                    ),
                backend.is_memory() ==> forall|q: int|
                    0 <= q < removals.len() ==> old(backend).answers_remove(
                        chunk_key(name, (count + q) as nat),
                        #[trigger] removals[q],
                    ),
                m0 == old(backend).contents(),
                forall|a: nat, b: nat|
                    #[trigger] chunk_key(name, a) == #[trigger] chunk_key(name, b) ==> a == b,
                backend.is_memory() ==> forall|q: nat|
                    q < count ==> backend.contents().contains_key(#[trigger] chunk_key(name, q))
                        && backend.contents()[chunk_key(name, q)] == chunk_text(s, q),
                backend.is_memory() ==> forall|k: Seq<char>|
                    !is_chunk_key(name, k) ==> #[trigger] unchanged_at(m0, backend.contents(), k),
                backend.is_memory() ==> forall|q: nat|
                    q >= j ==> #[trigger] unchanged_at(m0, backend.contents(), chunk_key(name, q)),
                backend.is_memory() ==> forall|q: nat|
                    count <= q < j ==> m0.contains_key(#[trigger] chunk_key(name, q)),
                backend.is_memory() && j > count ==> !backend.contents().contains_key(
                    chunk_key(name, count as nat),
                ),
            decreases usize::MAX - j,
        {
            let key = format_chunk_key(self.name.as_str(), j);
            let ghost before = backend.contents();
            let answer = backend_remove(backend, key.as_str());
            let ghost a = answer;
            let ghost next = removals.push(a);
            proof {
                assert(next.drop_last() =~= removals);
                if sets.len() > 0 {
                    assert(sets.last() is Ok);
                }
                if backend.is_memory() {
                    let kj = chunk_key(name, j as nat);
                    assert(unchanged_at(m0, before, kj));
                    assert(old(backend).fails_on(kj) == backend.fails_on(kj));
                    assert((count + (next.len() - 1)) as nat == j as nat);
                    assert forall|q: int| 0 <= q < next.len() implies old(backend).answers_remove(
                        chunk_key(name, (count + q) as nat),
                        #[trigger] next[q],
                    ) by {
                        if q < removals.len() {
                            assert(next[q] == removals[q]);
                        }
                    }
                    let after = backend.contents();
                    assert forall|k: Seq<char>| !is_chunk_key(name, k) implies #[trigger] unchanged_at(
                        m0,
                        after,
                        k,
                    ) by {
                        assert(unchanged_at(m0, before, k));
                        assert(k != chunk_key(name, j as nat));
                    }
                    assert forall|q: nat| q >= j + 1 implies #[trigger] unchanged_at(
                        m0,
                        after,
                        chunk_key(name, q),
                    ) by {
                        assert(unchanged_at(m0, before, chunk_key(name, q)));
                        assert(chunk_key(name, q) != chunk_key(name, j as nat));
                    }
                    assert(unchanged_at(m0, before, chunk_key(name, j as nat)));
                }
            }
            match delete_step(answer) {
                Ok(true) => {},
                Ok(false) => {
                    proof {
                        assert(write_outcome(count as nat, sets, next, Ok::<(), StoreError>(())));
                    }
                    return Ok(());
                },
                Err(e) => {
                    proof {
                        assert(write_outcome(count as nat, sets, next, Err::<(), StoreError>(e)));
                        if backend.is_memory() {
                            assert(stopped_at(m0, backend.contents(), name, s, j as nat));
                        }
                    }
                    return Err(e);
                },
            }
            proof {
                removals = next;
            }
            if j == usize::MAX {
                proof {
                    assert(write_outcome(
                        count as nat,
                        sets,
                        removals,
                        Err::<(), StoreError>(StoreError::TooManyChunks),
                    ));
                }
                return Err(StoreError::TooManyChunks);
            }
            j = j + 1;
        }
    }

    /// Deletes chunks 0, 1, 2, ... up to the first missing one; a secret with
    /// no chunk at all is deleted without error. A backend failure ends the
    /// deletion with that failure.
    pub fn delete_from(&self, backend: &mut SecretBackend) -> (r: Result<(), StoreError>)
        ensures
            old(backend).is_memory() <==> final(backend).is_memory(),
            exists|answers: Seq<Removal>|
                removal_outcome(0, answers, r) && (old(backend).is_memory() ==> forall|q: int|
                    0 <= q < answers.len() ==> old(backend).answers_remove(
                        chunk_key(self.name@, q as nat),
                        #[trigger] answers[q],
                    )),
            old(backend).is_memory() ==> match r {
                Ok(()) => deleted(old(backend).contents(), final(backend).contents(), self.name@),
                Err(StoreError::TooManyChunks) => holds_chunks(
                    old(backend).contents(),
                    self.name@,
                    usize::MAX as nat,
                ),
                Err(StoreError::Backend(_)) => exists|j: nat|
                    holds_chunks(old(backend).contents(), self.name@, j) && old(backend).fails_on(
                        chunk_key(self.name@, j),
                    ) && final(backend).contents() == #[trigger] without_chunks(
                        old(backend).contents(),
                        self.name@,
                        j,
                    ),
            },
    {
        let ghost m0 = backend.contents();
        let ghost name = self.name@;
        let ghost answers: Seq<Removal> = Seq::empty();
        let mut i: usize = 0;
        loop
            invariant
                name == self.name@,
                old(backend).is_memory() <==> backend.is_memory(),
                m0 == old(backend).contents(),
                answers.len() == i,
                forall|q: int| 0 <= q < answers.len() ==> #[trigger] answers[q] is Removed,
                backend.is_memory() ==> holds_chunks(m0, name, i as nat) && backend.contents()
                    == without_chunks(m0, name, i as nat),
                backend.is_memory() ==> same_failures(*backend, *old(backend)),
                backend.is_memory() ==> forall|q: int|
                    0 <= q < answers.len() ==> old(backend).answers_remove(
                        chunk_key(name, q as nat),
                        #[trigger] answers[q],
                    ),
            decreases usize::MAX - i,
        {
            let key = format_chunk_key(self.name.as_str(), i);
            proof {
                if backend.is_memory() {
                    lemma_without_chunks_keeps(m0, name, i as nat, i as nat);
                }
            }
            let ghost before = *backend;
            let answer = backend_remove(backend, key.as_str());
            let ghost a = answer;
            let ghost next = answers.push(a);
            proof {
                assert(next.drop_last() =~= answers);
                if backend.is_memory() {
                    let ki = chunk_key(name, i as nat);
                    assert(unchanged_at(m0, before.contents(), ki));
                    assert(old(backend).fails_on(ki) == before.fails_on(ki));
                    assert forall|q: int| 0 <= q < next.len() implies old(backend).answers_remove(
                        chunk_key(name, q as nat),
                        #[trigger] next[q],
                    ) by {
                        if q < answers.len() {
                            assert(next[q] == answers[q]);
                        }
                    }
                }
            }
            match delete_step(answer) {
                Ok(true) => {},
                Ok(false) => {
                    proof {
                        assert(removal_outcome(0, next, Ok::<(), StoreError>(())));
                        if backend.is_memory() {
                            assert(chunk_run(m0, name, i as nat));
                            assert(backend.contents() =~= without_chunks(m0, name, i as nat));
                        }
                    }
                    return Ok(());
                },
                Err(e) => {
                    proof {
                        assert(removal_outcome(0, next, Err::<(), StoreError>(e)));
                        if backend.is_memory() {
                            assert(backend.contents() == without_chunks(m0, name, i as nat));
                        }
                    }
                    return Err(e);
                },
            }
            proof {
                answers = next;
                if backend.is_memory() {
                    assert(holds_chunks(m0, name, (i + 1) as nat));
                }
            }
            if i == usize::MAX {
                proof {
                    assert(removal_outcome(0, answers, Err::<(), StoreError>(StoreError::TooManyChunks)));
                }
                return Err(StoreError::TooManyChunks);
            }
            i = i + 1;
        }
    }
}

/// Removing chunks `0 .. n` keeps entry `chunk_key(name, j)` for `j >= n`.
proof fn lemma_without_chunks_keeps(m: Map<Seq<char>, Seq<char>>, name: Seq<char>, n: nat, j: nat)
    requires
        n <= j,
    ensures
        unchanged_at(m, without_chunks(m, name, n), chunk_key(name, j)),
    decreases n,
{
    if n > 0 {
        lemma_without_chunks_keeps(m, name, (n - 1) as nat, j);
        lemma_chunk_key_injective(name);
    }
}

/// At most one chunk count is seen by a reader.
proof fn lemma_run_unique(m: Map<Seq<char>, Seq<char>>, name: Seq<char>, a: nat, b: nat)
    requires
        chunk_run(m, name, a),
        chunk_run(m, name, b),
    ensures
        a == b,
{
    if a < b {
        assert(m.contains_key(chunk_key(name, a)));
    } else if b < a {
        assert(m.contains_key(chunk_key(name, b)));
    }
}

/// The first `n` written chunks of `s`, joined, are the characters of the
/// matching prefix of its bytes.
proof fn lemma_joined_prefix(m: Map<Seq<char>, Seq<char>>, name: Seq<char>, s: Seq<char>, n: nat)
    requires
        n <= chunk_total(s),
        splits_cleanly(encode_utf8(s)),
        forall|i: nat|
            i < chunk_total(s) ==> m.contains_key(#[trigger] chunk_key(name, i)) && m[chunk_key(
                name,
                i,
            )] == chunk_text(s, i),
    ensures
        ({
            let b = encode_utf8(s);
            let end = if n * CHUNK_SIZE <= b.len() {
                n * CHUNK_SIZE
            } else {
                b.len() as int
            };
            is_char_boundary(b, end) && joined(m, name, n) == decode_utf8(b.subrange(0, end))
        }),
    decreases n,
{
    let b = encode_utf8(s);
    encode_utf8_valid_utf8(s);
    is_char_boundary_start_end_of_seq(b);
    let end = if n * CHUNK_SIZE <= b.len() {
        n * CHUNK_SIZE
    } else {
        b.len() as int
    };
    if end < b.len() && n > 0 {
        assert(boundary_at(b, n));
    }
    if n == 0 {
        assert(b.subrange(0, 0) =~= Seq::<u8>::empty());
        assert(decode_utf8(Seq::<u8>::empty()) =~= Seq::<char>::empty());
    } else {
        let p = (n - 1) as nat;
        lemma_joined_prefix(m, name, s, p);
        let j = p * CHUNK_SIZE;
        assert(j < b.len());
        let pre = b.subrange(0, end);
        valid_utf8_split(b, end);
        lemma_boundary_in_part(b, 0, end, j);
        decode_utf8_split(pre, j);
        assert(pre.subrange(0, j) =~= b.subrange(0, j));
        assert(pre.subrange(j, pre.len() as int) =~= byte_chunk(b, p));
        assert(m[chunk_key(name, p)] == chunk_text(s, p));
    }
}

/// Reading a secret back after writing it gives exactly that secret, and
/// nothing else, whatever the store held before. A reader also stops before
/// running out of chunk indexes.
pub proof fn lemma_write_then_read(
    before: Map<Seq<char>, Seq<char>>,
    after: Map<Seq<char>, Seq<char>>,
    name: Seq<char>,
    s: Seq<char>,
)
    requires
        written(before, after, name, s),
        splits_cleanly(encode_utf8(s)),
        encode_utf8(s).len() <= usize::MAX,
    ensures
        reads_as(after, name, s),
        forall|t: Seq<char>| reads_as(after, name, t) ==> t == s,
        !holds_chunks(after, name, usize::MAX as nat),
{
    let b = encode_utf8(s);
    let count = chunk_total(s);
    assert(chunk_run(after, name, count));
    lemma_joined_prefix(after, name, s, count);
    assert(b.subrange(0, b.len() as int) =~= b);
    encode_utf8_decode_utf8(s);
    assert(joined(after, name, count) == s);
    assert forall|t: Seq<char>| reads_as(after, name, t) implies t == s by {
        let n = choose|n: nat| #[trigger] chunk_run(after, name, n) && t == joined(after, name, n);
        lemma_run_unique(after, name, n, count);
    }
    assert(count < usize::MAX);
}

/// Overwriting a long secret with a shorter one: a reader sees the shorter
/// secret alone, none of the longer one's trailing chunks.
pub proof fn lemma_overwrite_with_shorter(
    m0: Map<Seq<char>, Seq<char>>,
    m1: Map<Seq<char>, Seq<char>>,
    m2: Map<Seq<char>, Seq<char>>,
    name: Seq<char>,
    long: Seq<char>,
    short: Seq<char>,
)
    requires
        written(m0, m1, name, long),
        written(m1, m2, name, short),
        encode_utf8(short).len() < encode_utf8(long).len() <= usize::MAX,
        splits_cleanly(encode_utf8(short)),
    ensures
        reads_as(m2, name, short),
        forall|t: Seq<char>| reads_as(m2, name, t) ==> t == short,
{
    lemma_write_then_read(m1, m2, name, short);
}

/// Chunks `0 .. n` are absent once removed.
proof fn lemma_without_chunks_absent(m: Map<Seq<char>, Seq<char>>, name: Seq<char>, n: nat, i: nat)
    requires
        i < n,
    ensures
        !without_chunks(m, name, n).contains_key(chunk_key(name, i)),
    decreases n,
{
    if i < n - 1 {
        lemma_without_chunks_absent(m, name, (n - 1) as nat, i);
    }
}

/// Deleting a secret that has no chunk succeeds and changes nothing.
pub proof fn lemma_delete_absent(
    m: Map<Seq<char>, Seq<char>>,
    after: Map<Seq<char>, Seq<char>>,
    name: Seq<char>,
)
    requires
        !m.contains_key(chunk_key(name, 0)),
    ensures
        !holds_chunks(m, name, usize::MAX as nat),
        deleted(m, after, name) <==> after == m,
{
    assert(chunk_run(m, name, 0));
    if deleted(m, after, name) {
        let n = choose|n: nat| #[trigger]
            chunk_run(m, name, n) && after == without_chunks(m, name, n);
        lemma_run_unique(m, name, n, 0);
    }
}

/// Deleting twice in a row: both deletions succeed, and the second finds
/// nothing left to remove.
pub proof fn lemma_delete_twice(
    m: Map<Seq<char>, Seq<char>>,
    mid: Map<Seq<char>, Seq<char>>,
    after: Map<Seq<char>, Seq<char>>,
    name: Seq<char>,
)
    requires
        deleted(m, mid, name),
    ensures
        !holds_chunks(mid, name, usize::MAX as nat),
        deleted(mid, after, name) <==> after == mid,
{
    let n = choose|n: nat| #[trigger] chunk_run(m, name, n) && mid == without_chunks(m, name, n);
    if n > 0 {
        lemma_without_chunks_absent(m, name, n, 0);
    }
    lemma_delete_absent(mid, after, name);
}

} // verus!
