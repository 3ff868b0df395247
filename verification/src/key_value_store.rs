use crate::bloom_filter::{
    default_hash, lemma_insert_keeps, lemma_insert_then_contains, probes_fit, BloomFilter, M,
};
use crate::encryption::{decrypt, decrypted_bytes, encrypt, encrypted_text, lemma_encrypt_decrypt};
use crate::json::{chars_eq, chars_lt, lemma_seq_lt_irreflexive, lemma_seq_lt_total, lemma_seq_lt_transitive, seq_lt};
use crate::overwatch::{callback_keys, callback_position, Overwatch};
use crate::text::{chars_of, string_of, trim_end};
use crate::error::Error;
use crate::json::{int_text, write_u128};
use crate::bytes::{be8, patched};
use crate::logger::{log_bytes, op_log_size, sized, LoggerError, OperationLog, OperationLogger, OperationType};
use crate::page::MAX_KEY_SIZE;
use vstd::prelude::*;
use vstd::utf8::{decode_utf8, encode_utf8, valid_utf8};

verus! {

#[verifier::external_type_specification]
#[verifier::external_body]
pub struct ExIoError(std::io::Error);

/// What can go wrong in the key-value store.
#[derive(Debug)]
pub enum KeyValueError {
    LoggerError(LoggerError),
    BtreeError(Error),
    FileError(std::io::Error),
    KeyToLarge,
    CorruptedBloomFilter,
    KeyOutsideFilter,
}

/// The ending of the file the key filter is kept in, after the store's name and a dot.
pub const BLOOM_FILTER_PATH: &'static str = "bloom_filter.dat";

/// How many inserts go by before the key filter is written to its file again.
pub const MIN_INSERTS_TO_WRITE_BLOOM_FILTER_ON_DISK: usize = 50;

/// The byte a bit of the key filter is kept as.
pub open spec fn bit_byte(b: bool) -> u8 {
    if b {
        1u8
    } else {
        0u8
    }
}

/// The bytes the key filter is kept as: one per bit.
pub open spec fn filter_bytes(bits: Seq<bool>) -> Seq<u8> {
    bits.map_values(|b: bool| bit_byte(b))
}

/// Whether the bytes of a kept key filter are all 0 or 1.
pub open spec fn bit_bytes_ok(bytes: Seq<u8>) -> bool {
    forall|i: int| 0 <= i < bytes.len() ==> #[trigger] bytes[i] == 0 || bytes[i] == 1
}

/// The bits kept as `bytes`.
pub open spec fn bytes_bits(bytes: Seq<u8>) -> Seq<bool> {
    bytes.map_values(|b: u8| b == 1)
}

/// The bytes the key filter is written to its file as.
pub fn bloom_filter_bytes(filter: &BloomFilter) -> (r: Vec<u8>)
    ensures
        r@ == filter_bytes(filter.bit_array@),
{
    let bits = filter.get_array();
    let mut out: Vec<u8> = Vec::new();
    let mut i: usize = 0;
    while i < bits.len()
        invariant
            i <= bits.len(),
            out@ == filter_bytes(bits@.take(i as int)),
        decreases bits.len() - i,
    {
        out.push(if bits[i] { 1u8 } else { 0u8 });
        assert(filter_bytes(bits@.take(i + 1)) =~= filter_bytes(bits@.take(i as int)).push(
            bit_byte(bits@[i as int]),
        ));
        i += 1;
    }
    assert(bits@.take(bits.len() as int) =~= bits@);
    out
}

/// The key filter read from the bytes of its file: each byte one bit, 1 for set and 0 for
/// clear; any other byte means the file is corrupt.
pub fn bloom_filter_from_bytes(data: &[u8]) -> (r: Result<BloomFilter, KeyValueError>)
    requires
        data@.len() == M,
    ensures
        bit_bytes_ok(data@) ==> (r matches Ok(f) && f.wf() && f.bit_array@ == bytes_bits(data@)),
        !bit_bytes_ok(data@) ==> (r matches Err(e) && e is CorruptedBloomFilter),
{
    let mut bit_array: Vec<bool> = Vec::new();
    let mut i: usize = 0;
    while i < data.len()
        invariant
            i <= data.len(),
            bit_array@ == bytes_bits(data@.take(i as int)),
            bit_bytes_ok(data@.take(i as int)),
        decreases data.len() - i,
    {
        let byte = data[i];
        if byte != 0 && byte != 1 {
            assert(!bit_bytes_ok(data@)) by {
                assert(data@[i as int] == byte);
            }
            return Err(KeyValueError::CorruptedBloomFilter);
        }
        bit_array.push(byte == 1);
        assert(bytes_bits(data@.take(i + 1)) =~= bytes_bits(data@.take(i as int)).push(byte == 1));
        assert(bit_bytes_ok(data@.take(i + 1))) by {
            assert forall|j: int| 0 <= j < i + 1 implies #[trigger] data@.take(i + 1)[j] == 0
                || data@.take(i + 1)[j] == 1 by {
                if j < i {
                    assert(data@.take(i + 1)[j] == data@.take(i as int)[j]);
                }
            }
        }
        i += 1;
    }
    assert(data@.take(data.len() as int) =~= data@);
    Ok(BloomFilter { bit_array })
}

/// The key filter's bits read back from the bytes they were written as.
pub proof fn lemma_filter_bytes_roundtrip(bits: Seq<bool>)
    ensures
        bit_bytes_ok(filter_bytes(bits)),
        bytes_bits(filter_bytes(bits)) == bits,
{
    assert(bytes_bits(filter_bytes(bits)) =~= bits);
}

/// Whether a key is longer in bytes than the store takes.
pub open spec fn key_too_large(key: Seq<char>) -> bool {
    encode_utf8(key).len() > MAX_KEY_SIZE
}

/// The message logged for a key that is too large.
pub open spec fn key_too_large_message(key: Seq<char>) -> Seq<char> {
    "key:"@ + key + " has a len of "@ + int_text(encode_utf8(key).len() as int)
        + " and it needs to be less then "@ + int_text(MAX_KEY_SIZE as int)
}

/// Refuses a key longer in bytes than the store takes, with the message to log.
pub fn check_key(key: &String) -> (r: Result<(), (KeyValueError, String)>)
    ensures
        !key_too_large(key@) ==> r is Ok,
        key_too_large(key@) ==> (r matches Err((e, m)) && e is KeyToLarge && m@
            == key_too_large_message(key@)),
{
    let n = key.as_str().as_bytes().len();
    if n <= MAX_KEY_SIZE {
        return Ok(());
    }
    let mut out: Vec<char> = Vec::new();
    push_text(&mut out, "key:");
    push_text(&mut out, key.as_str());
    push_text(&mut out, " has a len of ");
    let len_digits = write_u128(n as u128);
    push_all(&mut out, len_digits.as_slice());
    push_text(&mut out, " and it needs to be less then ");
    let max_digits = write_u128(MAX_KEY_SIZE as u128);
    push_all(&mut out, max_digits.as_slice());
    assert(out@ =~= key_too_large_message(key@));
    Err((KeyValueError::KeyToLarge, string_of(out.as_slice())))
}

/// Appends chars.
fn push_all(out: &mut Vec<char>, s: &[char])
    ensures
        final(out)@ == old(out)@ + s@,
{
    let mut i: usize = 0;
    while i < s.len()
        invariant
            i <= s.len(),
            out@ == old(out)@ + s@.take(i as int),
        decreases s.len() - i,
    {
        out.push(s[i]);
        assert(s@.take(i + 1) =~= s@.take(i as int).push(s@[i as int]));
        i += 1;
    }
    assert(s@.take(s.len() as int) =~= s@);
}

/// Appends the chars of a text.
fn push_text(out: &mut Vec<char>, s: &str)
    ensures
        final(out)@ == old(out)@ + s@,
{
    let v = chars_of(s);
    push_all(out, v.as_slice());
}


/// The keys of a store's index, each with the place of its value.
pub open spec fn index_view(es: Seq<(String, usize)>) -> Seq<(Seq<char>, usize)> {
    es.map_values(|e: (String, usize)| (e.0@, e.1))
}

/// The keys come in strictly increasing order.
pub open spec fn keys_ordered(ix: Seq<(Seq<char>, usize)>) -> bool {
    forall|a: int, b: int| 0 <= a < b < ix.len() ==> seq_lt(#[trigger] ix[a].0, #[trigger] ix[b].0)
}

/// Where the key stands in the index, if it does.
pub open spec fn index_of(ix: Seq<(Seq<char>, usize)>, k: Seq<char>) -> Option<int> {
    if exists|i: int| 0 <= i < ix.len() && #[trigger] ix[i].0 == k {
        Some(choose|i: int| 0 <= i < ix.len() && #[trigger] ix[i].0 == k)
    } else {
        None
    }
}

/// The value an index points a key at among the values, if the key is in it.
pub open spec fn stored_in(ix: Seq<(Seq<char>, usize)>, vs: Seq<Seq<u8>>, k: Seq<char>) -> Option<
    Seq<u8>,
> {
    match index_of(ix, k) {
        Some(i) => Some(vs[ix[i].1 as int]),
        None => None,
    }
}

/// Data that decrypts under the key to UTF-8.
pub open spec fn decryptable(k: Seq<char>, v: Seq<u8>) -> bool {
    v.len() % 4 == 0 && valid_utf8(decrypted_bytes(k, v))
}

/// The text that data decrypts to under the key.
pub open spec fn decrypted_text(k: Seq<char>, v: Seq<u8>) -> Seq<char> {
    trim_end(decode_utf8(decrypted_bytes(k, v)))
}

/// The views of a list of values.
pub open spec fn values_view(vs: Seq<Vec<u8>>) -> Seq<Seq<u8>> {
    vs.map_values(|v: Vec<u8>| v@)
}

/// Whether a key lies between `start` and `end`, both included.
pub open spec fn in_range(k: Seq<char>, start: Seq<char>, end: Seq<char>) -> bool {
    !seq_lt(k, start) && !seq_lt(end, k)
}

/// The texts of the values of the keys between `start` and `end`, in the index's order.
pub open spec fn range_texts(
    ix: Seq<(Seq<char>, usize)>,
    vals: Seq<Seq<u8>>,
    start: Seq<char>,
    end: Seq<char>,
) -> Seq<Seq<char>>
    decreases ix.len(),
{
    if ix.len() == 0 {
        Seq::empty()
    } else {
        let rest = range_texts(ix.drop_last(), vals, start, end);
        let e = ix.last();
        if in_range(e.0, start, end) {
            rest.push(decrypted_text(e.0, vals[e.1 as int]))
        } else {
            rest
        }
    }
}

/// The values a range scan reads are those of the keys of the index from `start` to `end`,
/// both included, in the index's order of keys, each decrypted under its key.
pub proof fn lemma_range_texts_are_keys_between(
    ix: Seq<(Seq<char>, usize)>,
    vals: Seq<Seq<u8>>,
    start: Seq<char>,
    end: Seq<char>,
)
    ensures
        range_texts(ix, vals, start, end) == ix.filter(
            |x: (Seq<char>, usize)| !seq_lt(x.0, start) && !seq_lt(end, x.0),
        ).map_values(|x: (Seq<char>, usize)| decrypted_text(x.0, vals[x.1 as int])),
    decreases ix.len(),
{
    reveal(Seq::filter);
    let pred = |x: (Seq<char>, usize)| !seq_lt(x.0, start) && !seq_lt(end, x.0);
    let f = |x: (Seq<char>, usize)| decrypted_text(x.0, vals[x.1 as int]);
    if ix.len() == 0 {
        assert(ix.filter(pred) =~= Seq::<(Seq<char>, usize)>::empty());
        assert(ix.filter(pred).map_values(f) =~= Seq::<Seq<char>>::empty());
    } else {
        lemma_range_texts_are_keys_between(ix.drop_last(), vals, start, end);
        let sub = ix.drop_last().filter(pred);
        if pred(ix.last()) {
            assert(ix.filter(pred) == sub.push(ix.last()));
            assert(sub.push(ix.last()).map_values(f) =~= sub.map_values(f).push(f(ix.last())));
        } else {
            assert(ix.filter(pred) == sub);
        }
    }
}

/// What a range scan gives: as many empty texts as keys found, then the texts of their
/// values in key order.
pub open spec fn range_result(
    ix: Seq<(Seq<char>, usize)>,
    vals: Seq<Seq<u8>>,
    start: Seq<char>,
    end: Seq<char>,
) -> Seq<Seq<char>> {
    let t = range_texts(ix, vals, start, end);
    Seq::new(t.len(), |i: int| Seq::<char>::empty()) + t
}

/// The record of an operation logged under `id`, not completed and not yet tried: its
/// code, its key and, for writes, its value.
pub open spec fn op_record(id: usize, code: u8, key: Seq<char>, value: Option<Seq<u8>>) -> Seq<u8> {
    be8(id as u64) + seq![0u8] + be8(0u64) + seq![code] + sized(encode_utf8(key)) + match value {
        Some(v) => sized(v),
        None => Seq::empty(),
    }
}

/// Whether an operation can be logged: its number and the log's new length fit.
pub open spec fn log_fits(log: Seq<u8>, id: usize, key: Seq<char>, value: Option<Seq<u8>>) -> bool {
    id < usize::MAX && log.len() + 26 + encode_utf8(key).len() + match value {
        Some(v) => v.len() + 8,
        None => 0,
    } <= usize::MAX
}

/// The log with an operation's record appended, not completed.
pub open spec fn logged_open(log: Seq<u8>, id: usize, code: u8, key: Seq<char>, value: Option<Seq<u8>>) -> Seq<u8> {
    log + op_record(id, code, key, value)
}

/// The log with an operation's record appended and then marked completed.
pub open spec fn logged_done(log: Seq<u8>, id: usize, code: u8, key: Seq<char>, value: Option<Seq<u8>>) -> Seq<u8> {
    patched(log + op_record(id, code, key, value), log.len() + 8int, seq![1u8])
}

/// The code, key and value of an operation.
pub open spec fn op_parts(op: OperationType) -> (u8, Seq<char>, Option<Seq<u8>>) {
    match op {
        OperationType::Insert(k, v) => (1u8, k@, Some(v@)),
        OperationType::Select(k) => (2u8, k@, None),
        OperationType::Delete(k) => (3u8, k@, None),
        OperationType::Update(k, v) => (4u8, k@, Some(v@)),
    }
}

/// Logs an operation under the next number where it fits (see [`log_fits`]), not
/// completed; where its record starts.
fn record_op(logger: &mut OperationLogger, op: OperationType) -> (r: Result<usize, KeyValueError>)
    ensures
        ({
            let (c, k, v) = op_parts(op);
            if log_fits(old(logger).log_file@, old(logger).id, k, v) {
                &&& r == Ok::<usize, KeyValueError>(old(logger).log_file@.len() as usize)
                &&& final(logger).log_file@ == logged_open(old(logger).log_file@, old(logger).id, c, k, v)
                &&& final(logger).id == old(logger).id + 1
            } else {
                &&& r matches Err(KeyValueError::LoggerError(LoggerError::CantWriteParam))
                &&& final(logger).log_file@ == old(logger).log_file@
                &&& final(logger).id == old(logger).id
            }
        }),
{
    let klen = match &op {
        OperationType::Insert(k, _) => k.as_str().as_bytes().len(),
        OperationType::Select(k) => k.as_str().as_bytes().len(),
        OperationType::Delete(k) => k.as_str().as_bytes().len(),
        OperationType::Update(k, _) => k.as_str().as_bytes().len(),
    };
    let vlen: u128 = match &op {
        OperationType::Insert(_, v) => v.len() as u128 + 8,
        OperationType::Update(_, v) => v.len() as u128 + 8,
        _ => 0,
    };
    if logger.id == usize::MAX || (logger.log_file.len() as u128) + 26 + (klen as u128) + vlen
        > usize::MAX as u128 {
        return Err(KeyValueError::LoggerError(LoggerError::CantWriteParam));
    }
    let ghost before = logger.log_file@;
    let ghost id = logger.id;
    let ghost op_v = op;
    let log = match logger.log_operation(op) {
        Ok(l) => l,
        Err(e) => {
            return Err(KeyValueError::LoggerError(e));
        },
    };
    proof {
        let (c, k, v) = op_parts(op_v);
        assert(log_bytes(log) =~= op_record(id, c, k, v));
    }
    Ok(log.start_location)
}

/// Marks the record that starts at `start` completed.
fn complete_op(logger: &mut OperationLogger, start: usize)
    requires
        start + 9 <= usize::MAX,
    ensures
        final(logger).log_file@ == patched(old(logger).log_file@, start + 8, seq![1u8]),
        final(logger).id == old(logger).id,
{
    let _ = logger.mark_log_as_completed(start);
}

/// A store of keys and encrypted values: the keys in order, each with the place of its
/// value among the values written; a filter of the keys' hashes; the callbacks run on
/// updates and deletions; and how many inserts went by since the filter was last saved.
pub struct KeyValueStore<C> {
    name: String,
    index: Vec<(String, usize)>,
    values: Vec<Vec<u8>>,
    bloom_filter: BloomFilter,
    overwatch: Overwatch<C>,
    insert_count: usize,
    op_logger: OperationLogger,
}

impl<C> KeyValueStore<C> {
    /// The keys with the places of their values, in order.
    pub closed spec fn index(&self) -> Seq<(Seq<char>, usize)> {
        index_view(self.index@)
    }

    /// The values written, by place.
    pub closed spec fn values(&self) -> Seq<Seq<u8>> {
        values_view(self.values@)
    }

    /// The encrypted value kept under a key, if any.
    pub open spec fn stored(&self, k: Seq<char>) -> Option<Seq<u8>> {
        stored_in(self.index(), self.values(), k)
    }

    /// The store's name.
    pub closed spec fn name_of(&self) -> Seq<char> {
        self.name@
    }

    /// The key filter.
    pub closed spec fn filter(&self) -> BloomFilter {
        self.bloom_filter
    }

    /// The operation log's bytes: a record for each operation, marked once completed.
    pub closed spec fn op_log(&self) -> Seq<u8> {
        self.op_logger.log_file@
    }

    /// The number the next logged operation gets.
    pub closed spec fn next_op(&self) -> usize {
        self.op_logger.id
    }

    /// The inserts since the key filter was last saved.
    pub closed spec fn inserts_since_save(&self) -> usize {
        self.insert_count
    }

    /// The keys are ordered, each value has its place, every key's hash is held by the
    /// filter, every value decrypts under its key, and no callback is bound.
    pub closed spec fn wf(&self) -> bool {
        &&& keys_ordered(self.index())
        &&& forall|i: int| 0 <= i < self.index().len() ==> (#[trigger] self.index()[i]).1 < self.values().len()
        &&& self.bloom_filter.wf()
        &&& forall|k: Seq<char>| #[trigger] self.stored(k) is Some ==> probes_fit(default_hash(k))
            && self.bloom_filter.holds_hash(default_hash(k)) && decryptable(k, self.stored(k)->0)
        &&& self.overwatch.updates().len() == 0
        &&& self.overwatch.deletes().len() == 0
    }

    /// The operation log's bytes (to be kept in the store's operation log file).
    pub fn operation_log(&self) -> (r: &Vec<u8>)
        ensures
            r@ == self.op_log(),
    {
        &self.op_logger.log_file
    }

    /// Whether two stores hold the same index, values, filter bits and insert count.
    pub open spec fn same_contents(&self, other: &Self) -> bool {
        &&& self.index() == other.index()
        &&& self.values() == other.values()
        &&& self.filter().bit_array@ == other.filter().bit_array@
        &&& self.inserts_since_save() == other.inserts_since_save()
    }

    /// An empty store under a name.
    pub fn new(name: String) -> (r: Self)
        ensures
            r.wf(),
            r.name_of() == name@,
            r.index().len() == 0,
            r.values().len() == 0,
            r.inserts_since_save() == 0,
            r.op_log() == Seq::<u8>::empty(),
            r.next_op() == 0,
            forall|k: Seq<char>| #[trigger] r.stored(k) is None,
    {
        let r = KeyValueStore {
            name,
            index: Vec::new(),
            values: Vec::new(),
            bloom_filter: BloomFilter::new(),
            overwatch: Overwatch::new(),
            insert_count: 0,
            op_logger: OperationLogger::new(Vec::new(), 0),
        };
        assert(r.index() =~= Seq::<(Seq<char>, usize)>::empty());
        assert(r.values() =~= Seq::<Seq<u8>>::empty());
        r
    }

    /// The value kept under a key, decrypted.
    fn lookup(&self, key: &String) -> (r: Option<String>)
        requires
            self.wf(),
        ensures
            match self.stored(key@) {
                None => r is None,
                Some(v) => (r matches Some(t) && t@ == decrypted_text(key@, v)),
            },
    {
        let k = chars_of(key.as_str());
        let (i, found) = self.find(&k);
        if found {
            proof {
                lemma_index_of_at(self.index(), key@, i as int);
            }
            let loc = self.index[i].1;
            assert(self.index()[i as int].1 == loc);
            let v = self.values[loc].clone();
            assert(v@ =~= self.values()[loc as int]);
            Some(decrypt(key, v))
        } else {
            proof {
                lemma_seq_lt_irreflexive(key@);
                assert forall|j: int| 0 <= j < self.index().len() implies (#[trigger] self.index()[j]).0
                    != key@ by {
                    if j < i {
                        assert(seq_lt(self.index()[j].0, key@));
                    } else {
                        assert(seq_lt(key@, self.index()[j].0));
                    }
                }
                lemma_index_of_none(self.index(), key@);
            }
            None
        }
    }

    /// Looks a key up: an oversized key is refused, as is a key whose hash the filter has
    /// no place for; a key the filter has not seen is absent; otherwise the search is
    /// logged, and the value kept under the key, decrypted, is returned and the logged
    /// search marked completed.
    #[verifier::spinoff_prover]
    #[verifier::rlimit(40)]
    pub fn search(&mut self, key: &String) -> (r: Result<Option<String>, KeyValueError>)
        requires
            old(self).wf(),
        ensures
            final(self).wf(),
            final(self).same_contents(old(self)),
            final(self).name_of() == old(self).name_of(),
            key_too_large(key@) ==> r matches Err(KeyValueError::KeyToLarge),
            !key_too_large(key@) && !probes_fit(default_hash(key@)) ==> r matches Err(
                KeyValueError::KeyOutsideFilter,
            ),
            !(!key_too_large(key@) && probes_fit(default_hash(key@)) && old(self).filter().holds_hash(
                default_hash(key@),
            ) && log_fits(old(self).op_log(), old(self).next_op(), key@, None)) ==> final(self).op_log()
                == old(self).op_log() && final(self).next_op() == old(self).next_op(),
            !key_too_large(key@) && probes_fit(default_hash(key@)) && old(self).filter().holds_hash(
                default_hash(key@),
            ) && !log_fits(old(self).op_log(), old(self).next_op(), key@, None) ==> r matches Err(
                KeyValueError::LoggerError(_),
            ),
            !key_too_large(key@) && probes_fit(default_hash(key@)) && old(self).filter().holds_hash(
                default_hash(key@),
            ) && log_fits(old(self).op_log(), old(self).next_op(), key@, None) ==> final(self).op_log()
                == logged_done(old(self).op_log(), old(self).next_op(), 2u8, key@, None) && final(self).next_op() == old(self).next_op() + 1,
            !key_too_large(key@) && probes_fit(default_hash(key@)) && (!old(self).filter().holds_hash(
                default_hash(key@),
            ) || log_fits(old(self).op_log(), old(self).next_op(), key@, None)) ==> match old(self).stored(key@) {
                None => r matches Ok(None),
                Some(v) => (r matches Ok(Some(t)) && t@ == decrypted_text(key@, v)),
            },
    {
        if check_key(key).is_err() {
            return Err(KeyValueError::KeyToLarge);
        }
        let ghost before = *self;
        match self.bloom_filter.try_contains(key.as_str()) {
            None => {
                return Err(KeyValueError::KeyOutsideFilter);
            },
            Some(false) => {
                proof {
                    if self.stored(key@) is Some {
                        assert(self.bloom_filter.holds_hash(default_hash(key@)));
                    }
                }
                return Ok(None);
            },
            Some(true) => {},
        }
        let start = match record_op(&mut self.op_logger, OperationType::Select(key.clone())) {
            Ok(st) => st,
            Err(e) => {
                proof {
                    assert(self.index() == before.index());
                    assert(self.values() == before.values());
                    assert forall|k: Seq<char>| #[trigger] self.stored(k) is Some implies probes_fit(default_hash(k))
                        && self.bloom_filter.holds_hash(default_hash(k)) && decryptable(k, self.stored(k)->0) by {
                        assert(self.stored(k) == before.stored(k));
                    }
                }
                return Err(e);
            },
        };
        proof {
            assert(self.index() == before.index());
            assert(self.values() == before.values());
            assert forall|k: Seq<char>| #[trigger] self.stored(k) is Some implies probes_fit(default_hash(k))
                && self.bloom_filter.holds_hash(default_hash(k)) && decryptable(k, self.stored(k)->0) by {
                assert(self.stored(k) == before.stored(k));
            }
        }
        let found = self.lookup(key);
        complete_op(&mut self.op_logger, start);
        proof {
            assert(self.index() == before.index());
            assert(self.values() == before.values());
            assert forall|k: Seq<char>| #[trigger] self.stored(k) is Some implies probes_fit(default_hash(k))
                && self.bloom_filter.holds_hash(default_hash(k)) && decryptable(k, self.stored(k)->0) by {
                assert(self.stored(k) == before.stored(k));
            }
        }
        Ok(found)
    }

    /// Inserts a value under a key: an oversized key is refused, as is a key whose hash
    /// the filter has no place for; otherwise the value, encrypted under the key, is written
    /// after the values before it (its place is returned), the key points at it, and the
    /// filter holds the key's hash.
    #[verifier::spinoff_prover]
    #[verifier::rlimit(40)]
    pub fn insert(&mut self, key: String, value: String) -> (r: Result<usize, KeyValueError>)
        requires
            old(self).wf(),
            old(self).values().len() < usize::MAX,
            old(self).inserts_since_save() < usize::MAX,
        ensures
            final(self).wf(),
            final(self).name_of() == old(self).name_of(),
            key_too_large(key@) ==> (r matches Err(KeyValueError::KeyToLarge) && final(self).same_contents(
                old(self),
            ) && final(self).op_log() == old(self).op_log() && final(self).next_op() == old(self).next_op()),
            !key_too_large(key@) && !log_fits(old(self).op_log(), old(self).next_op(), key@, Some(encrypted_text(key@, value@)))
                ==> (r matches Err(KeyValueError::LoggerError(_)) && final(self).same_contents(old(self))
                && final(self).op_log() == old(self).op_log() && final(self).next_op() == old(self).next_op()),
            !key_too_large(key@) && log_fits(old(self).op_log(), old(self).next_op(), key@, Some(encrypted_text(key@, value@)))
                ==> final(self).next_op() == old(self).next_op() + 1,
            !key_too_large(key@) && log_fits(old(self).op_log(), old(self).next_op(), key@, Some(encrypted_text(key@, value@)))
                && !probes_fit(default_hash(key@)) ==> (r matches Err(KeyValueError::KeyOutsideFilter)
                && final(self).same_contents(old(self)) && final(self).op_log() == logged_open(
                old(self).op_log(),
                old(self).next_op(),
                1u8,
                key@,
                Some(encrypted_text(key@, value@)),
            )),
            !key_too_large(key@) && log_fits(old(self).op_log(), old(self).next_op(), key@, Some(encrypted_text(key@, value@)))
                && probes_fit(default_hash(key@)) ==> {
                &&& final(self).op_log() == logged_done(
                    old(self).op_log(),
                    old(self).next_op(),
                    1u8,
                    key@,
                    Some(encrypted_text(key@, value@)),
                )
                &&& r == Ok::<usize, KeyValueError>(old(self).values().len() as usize)
                &&& final(self).values() == old(self).values().push(encrypted_text(key@, value@))
                &&& final(self).stored(key@) == Some(encrypted_text(key@, value@))
                &&& forall|k: Seq<char>| k != key@ ==> #[trigger] final(self).stored(k) == old(self).stored(k)
                &&& final(self).filter().holds_hash(default_hash(key@))
                &&& final(self).inserts_since_save() == old(self).inserts_since_save() + 1
            },
    {
        if check_key(&key).is_err() {
            return Err(KeyValueError::KeyToLarge);
        }
        let ghost before = *self;
        let enc = encrypt(&key, value);
        proof {
            lemma_encrypt_decrypt(key@, value@);
        }
        let logged = enc.clone();
        assert(logged@ =~= enc@);
        let start = match record_op(&mut self.op_logger, OperationType::Insert(key.clone(), logged)) {
            Ok(s) => s,
            Err(e) => {
                proof {
                    assert(self.index() == before.index());
                    assert(self.values() == before.values());
                    assert forall|k: Seq<char>| #[trigger] self.stored(k) is Some implies probes_fit(default_hash(k))
                        && self.bloom_filter.holds_hash(default_hash(k)) && decryptable(k, self.stored(k)->0) by {
                        assert(self.stored(k) == before.stored(k));
                    }
                }
                return Err(e);
            },
        };
        let ghost logged_state = *self;
        if !self.bloom_filter.try_insert(key.as_str()) {
            proof {
                assert(self.index() == before.index());
                assert(self.values() == before.values());
                assert forall|k: Seq<char>| #[trigger] self.stored(k) is Some implies probes_fit(default_hash(k))
                    && self.bloom_filter.holds_hash(default_hash(k)) && decryptable(k, self.stored(k)->0) by {
                    assert(self.stored(k) == before.stored(k));
                    assert(before.stored(k) is Some);
                    assert(before.bloom_filter.holds_hash(default_hash(k)));
                }
            }
            return Err(KeyValueError::KeyOutsideFilter);
        }
        proof {
            lemma_insert_then_contains(before.bloom_filter, self.bloom_filter, default_hash(key@));
            assert forall|k: Seq<char>| #[trigger] before.stored(k) is Some implies self.bloom_filter.holds_hash(
                default_hash(k),
            ) by {
                lemma_insert_keeps(before.bloom_filter, self.bloom_filter, default_hash(key@), default_hash(k));
            }
        }
        let ghost mid = *self;
        let loc = self.put(key, enc);
        let ghost after_put = *self;
        self.insert_count += 1;
        complete_op(&mut self.op_logger, start);
        proof {
            assert forall|k: Seq<char>| #[trigger] self.stored(k) is Some implies probes_fit(default_hash(k))
                && self.bloom_filter.holds_hash(default_hash(k)) && decryptable(k, self.stored(k)->0) by {
                if k != key@ {
                    assert(mid.stored(k) == before.stored(k));
                    assert(after_put.stored(k) == mid.stored(k));
                    assert(self.stored(k) == after_put.stored(k));
                }
            }
            assert(self.values() == before.values().push(encrypted_text(key@, value@)));
            assert(self.stored(key@) == Some(encrypted_text(key@, value@)));
            assert forall|k: Seq<char>| k != key@ implies #[trigger] self.stored(k) == before.stored(k) by {
                assert(mid.stored(k) == before.stored(k));
                assert(after_put.stored(k) == mid.stored(k));
                assert(self.stored(k) == after_put.stored(k));
            }
            assert(self.filter().holds_hash(default_hash(key@)));
            assert(loc == before.values().len());
            assert(self.op_log() == logged_done(
                before.op_log(),
                before.next_op(),
                1u8,
                key@,
                Some(encrypted_text(key@, value@)),
            ));
        }
        Ok(loc)
    }

    /// The values of the keys from `start` to `end`, both included: an oversized bound is
    /// refused; otherwise as many empty texts as keys found come first, then the values,
    /// decrypted, in key order.
    pub fn range_scan(&self, start: &String, end: &String) -> (r: Result<Vec<String>, KeyValueError>)
        requires
            self.wf(),
        ensures
            key_too_large(start@) || key_too_large(end@) ==> r matches Err(KeyValueError::KeyToLarge),
            !key_too_large(start@) && !key_too_large(end@) ==> (r matches Ok(v) && v@.map_values(
                |t: String| t@,
            ) == range_result(self.index(), self.values(), start@, end@)),
    {
        if check_key(start).is_err() {
            return Err(KeyValueError::KeyToLarge);
        }
        if check_key(end).is_err() {
            return Err(KeyValueError::KeyToLarge);
        }
        let ghost ix = self.index();
        let ghost vs = self.values();
        let s = chars_of(start.as_str());
        let e = chars_of(end.as_str());
        let mut found: Vec<String> = Vec::new();
        let mut i: usize = 0;
        assert(ix.take(0) =~= Seq::<(Seq<char>, usize)>::empty());
        while i < self.index.len()
            invariant
                self.wf(),
                ix == self.index(),
                vs == self.values(),
                s@ == start@,
                e@ == end@,
                i <= ix.len(),
                ix.len() == self.index@.len(),
                found@.map_values(|t: String| t@) == range_texts(ix.take(i as int), vs, start@, end@),
            decreases self.index.len() - i,
        {
            let k = chars_of(self.index[i].0.as_str());
            assert(k@ == ix[i as int].0);
            assert(ix.take(i + 1).drop_last() =~= ix.take(i as int));
            assert(ix.take(i + 1).last() == ix[i as int]);
            if !chars_lt(k.as_slice(), s.as_slice()) && !chars_lt(e.as_slice(), k.as_slice()) {
                let loc = self.index[i].1;
                assert(ix[i as int].1 == loc);
                proof {
                    lemma_index_of_at(ix, k@, i as int);
                    assert(self.stored(k@) is Some);
                }
                let v = self.values[loc].clone();
                assert(v@ =~= vs[loc as int]);
                let t = decrypt(&self.index[i].0, v);
                let ghost before = found@;
                found.push(t);
                assert(found@.map_values(|t: String| t@) =~= before.map_values(|t: String| t@).push(t@));
            }
            i += 1;
        }
        assert(ix.take(ix.len() as int) =~= ix);
        let mut r: Vec<String> = Vec::new();
        let n = found.len();
        let mut j: usize = 0;
        while j < n
            invariant
                j <= n,
                n == found.len(),
                r@.map_values(|t: String| t@) =~= Seq::new(j as nat, |x: int| Seq::<char>::empty()),
            decreases n - j,
        {
            let ghost before = r@;
            r.push(String::new());
            assert(r@.map_values(|t: String| t@) =~= before.map_values(|t: String| t@).push(Seq::<char>::empty()));
            j += 1;
        }
        let mut j: usize = 0;
        let ghost head = r@.map_values(|t: String| t@);
        let ghost texts = found@.map_values(|t: String| t@);
        while j < n
            invariant
                j <= n,
                n == found.len(),
                texts == found@.map_values(|t: String| t@),
                r@.map_values(|t: String| t@) =~= head + texts.take(j as int),
            decreases n - j,
        {
            let ghost before = r@;
            r.push(found[j].clone());
            assert(texts.take(j + 1) =~= texts.take(j as int).push(texts[j as int]));
            assert(r@.map_values(|t: String| t@) =~= before.map_values(|t: String| t@).push(texts[j as int]));
            j += 1;
        }
        assert(texts.take(n as int) =~= texts);
        Ok(r)
    }

    /// The key filter's bytes when enough inserts went by since it was last saved (it is
    /// then to be written to its file), `None` otherwise; the count starts again either way.
    pub fn filter_to_save(&mut self) -> (r: Option<Vec<u8>>)
        requires
            old(self).wf(),
        ensures
            final(self).wf(),
            final(self).inserts_since_save() == 0,
            final(self).index() == old(self).index(),
            final(self).values() == old(self).values(),
            final(self).filter() == old(self).filter(),
            final(self).name_of() == old(self).name_of(),
            old(self).inserts_since_save() >= MIN_INSERTS_TO_WRITE_BLOOM_FILTER_ON_DISK ==> (r matches Some(
                b) && b@ == filter_bytes(old(self).filter().bit_array@)),
            old(self).inserts_since_save() < MIN_INSERTS_TO_WRITE_BLOOM_FILTER_ON_DISK ==> r is None,
    {
        let ghost before = *self;
        let write = self.insert_count >= MIN_INSERTS_TO_WRITE_BLOOM_FILTER_ON_DISK;
        self.insert_count = 0;
        proof {
            assert(self.index() == before.index());
            assert(self.values() == before.values());
            assert forall|kk: Seq<char>| #[trigger] self.stored(kk) is Some implies probes_fit(default_hash(kk))
                && self.bloom_filter.holds_hash(default_hash(kk)) && decryptable(kk, self.stored(kk)->0) by {
                assert(self.stored(kk) == before.stored(kk));
            }
        }
        if write {
            Some(bloom_filter_bytes(&self.bloom_filter))
        } else {
            None
        }
    }

    /// Writes a new value and points `key` at it, in place of the value it had or as a
    /// new key at its place in order.
    fn put(&mut self, key: String, enc: Vec<u8>) -> (loc: usize)
        requires
            keys_ordered(old(self).index()),
            old(self).values().len() < usize::MAX,
            forall|j: int| 0 <= j < old(self).index().len() ==> (#[trigger] old(self).index()[j]).1
                < old(self).values().len(),
        ensures
            loc == old(self).values().len(),
            final(self).values() == old(self).values().push(enc@),
            keys_ordered(final(self).index()),
            forall|j: int| 0 <= j < final(self).index().len() ==> (#[trigger] final(self).index()[j]).1
                < final(self).values().len(),
            final(self).stored(key@) == Some(enc@),
            forall|k: Seq<char>| k != key@ ==> #[trigger] final(self).stored(k) == old(self).stored(k),
            final(self).bloom_filter == old(self).bloom_filter,
            final(self).overwatch == old(self).overwatch,
            final(self).insert_count == old(self).insert_count,
            final(self).name == old(self).name,
            final(self).op_logger == old(self).op_logger,
    {
        let ghost ix = self.index();
        let ghost vs = self.values();
        let loc = self.values.len();
        self.values.push(enc);
        assert(self.values() =~= vs.push(enc@));
        let k = chars_of(key.as_str());
        let (i, found) = self.find(&k);
        if found {
            proof {
                lemma_index_set(ix, i as int, loc);
            }
            self.index.set(i, (key, loc));
            assert(self.index() =~= ix.update(i as int, (ix[i as int].0, loc)));
            proof {
                lemma_index_of_at(self.index(), key@, i as int);
                lemma_stored_kept(ix, self.index(), vs, enc@, key@);
            }
        } else {
            proof {
                lemma_index_insert(ix, i as int, key@, loc);
            }
            self.index.insert(i, (key, loc));
            assert(self.index() =~= ix.insert(i as int, (key@, loc)));
            proof {
                lemma_stored_kept(ix, self.index(), vs, enc@, key@);
            }
        }
        loc
    }

    /// Where `key` stands in the index, or where it would go.
    fn find(&self, key: &Vec<char>) -> (r: (usize, bool))
        requires
            keys_ordered(self.index()),
        ensures
            r.0 <= self.index().len(),
            forall|i: int| 0 <= i < r.0 ==> seq_lt(#[trigger] self.index()[i].0, key@),
            r.1 ==> r.0 < self.index().len() && self.index()[r.0 as int].0 == key@,
            !r.1 ==> forall|i: int| r.0 <= i < self.index().len() ==> seq_lt(key@, #[trigger] self.index()[i].0),
    {
        let ghost ix = self.index();
        let mut i: usize = 0;
        while i < self.index.len()
            invariant
                ix == self.index(),
                keys_ordered(ix),
                i <= ix.len(),
                ix.len() == self.index@.len(),
                forall|j: int| 0 <= j < i ==> seq_lt(#[trigger] ix[j].0, key@),
            decreases self.index.len() - i,
        {
            let k = chars_of(self.index[i].0.as_str());
            assert(k@ == ix[i as int].0);
            if !chars_lt(k.as_slice(), key.as_slice()) {
                if chars_eq(k.as_slice(), key.as_slice()) {
                    return (i, true);
                }
                proof {
                    lemma_seq_lt_total(k@, key@);
                    assert forall|j: int| i <= j < ix.len() implies seq_lt(key@, #[trigger] ix[j].0) by {
                        if j > i {
                            lemma_seq_lt_transitive(key@, ix[i as int].0, ix[j].0);
                        }
                    }
                }
                return (i, false);
            }
            i += 1;
        }
        (i, false)
    }
}

impl<C: FnMut(String)> KeyValueStore<C> {
    /// Replaces the value of a key the store holds (see [`KeyValueStore::update`]).
    #[verifier::spinoff_prover]
    #[verifier::rlimit(40)]
    fn apply_update(&mut self, key: String, new_value: String) -> (r: Option<String>)
        requires
            old(self).wf(),
            old(self).values().len() < usize::MAX,
        ensures
            final(self).wf(),
            final(self).name_of() == old(self).name_of(),
            final(self).filter().bit_array@ == old(self).filter().bit_array@,
            final(self).inserts_since_save() == old(self).inserts_since_save(),
            final(self).op_logger == old(self).op_logger,
            match old(self).stored(key@) {
                None => (r is None && final(self).same_contents(old(self))),
                Some(v) => {
                    &&& r matches Some(t) && t@ == decrypted_text(key@, v)
                    &&& final(self).values() == old(self).values().push(encrypted_text(key@, new_value@))
                    &&& final(self).stored(key@) == Some(encrypted_text(key@, new_value@))
                    &&& forall|k: Seq<char>| k != key@ ==> #[trigger] final(self).stored(k) == old(self).stored(k)
                },
            },
    {
        let ghost before = *self;
        let k = chars_of(key.as_str());
        let (i, found) = self.find(&k);
        if !found {
            proof {
                lemma_seq_lt_irreflexive(key@);
                assert forall|j: int| 0 <= j < self.index().len() implies (#[trigger] self.index()[j]).0
                    != key@ by {
                    if j < i {
                        assert(seq_lt(self.index()[j].0, key@));
                    } else {
                        assert(seq_lt(key@, self.index()[j].0));
                    }
                }
                lemma_index_of_none(self.index(), key@);
            }
            return None;
        }
        proof {
            lemma_index_of_at(self.index(), key@, i as int);
        }
        let loc = self.index[i].1;
        assert(self.index()[i as int].1 == loc);
        let old_enc = self.values[loc].clone();
        assert(old_enc@ =~= self.values()[loc as int]);
        let key_copy = key.clone();
        let value_copy = new_value.clone();
        let enc = encrypt(&key, new_value);
        proof {
            lemma_encrypt_decrypt(key@, value_copy@);
        }
        let ghost mid = *self;
        self.put(key, enc);
        let ghost after_put = *self;
        let old_text = decrypt(&key_copy, old_enc);
        self.overwatch.get_update(&key_copy, value_copy);
        proof {
            lemma_same_keys_len(self.overwatch.updates(), after_put.overwatch.updates());
            assert(self.index() == after_put.index());
            assert(self.values() == after_put.values());
            assert forall|kk: Seq<char>| kk != key_copy@ implies #[trigger] self.stored(kk) == before.stored(kk) by {
                assert(after_put.stored(kk) == mid.stored(kk));
                assert(self.stored(kk) == after_put.stored(kk));
            }
            assert forall|kk: Seq<char>| #[trigger] self.stored(kk) is Some implies probes_fit(default_hash(kk))
                && self.bloom_filter.holds_hash(default_hash(kk)) && decryptable(kk, self.stored(kk)->0) by {
                if kk != key_copy@ {
                    assert(self.stored(kk) == before.stored(kk));
                } else {
                    assert(self.stored(kk) == after_put.stored(kk));
                }
            }
        }
        Some(old_text)
    }


    /// Updates the value of a key: an oversized key is refused, as is a key whose hash the
    /// filter has no place for; a key the filter has not seen is left alone (`None`);
    /// otherwise the update is logged with the new value encrypted, then, where the store
    /// holds the key, the new value, encrypted under the key, is written after the values
    /// before it, the key points at it, the old value is returned decrypted, and the key's
    /// update callback, if one were bound, would run with the new value (none can be bound
    /// in a store); the logged update is then marked completed.
    #[verifier::spinoff_prover]
    #[verifier::rlimit(40)]
    pub fn update(&mut self, key: String, new_value: String) -> (r: Result<Option<String>, KeyValueError>)
        requires
            old(self).wf(),
            old(self).values().len() < usize::MAX,
        ensures
            final(self).wf(),
            final(self).name_of() == old(self).name_of(),
            final(self).filter().bit_array@ == old(self).filter().bit_array@,
            final(self).inserts_since_save() == old(self).inserts_since_save(),
            key_too_large(key@) ==> (r matches Err(KeyValueError::KeyToLarge) && final(self).same_contents(
                old(self),
            )),
            !key_too_large(key@) && !probes_fit(default_hash(key@)) ==> (r matches Err(
                KeyValueError::KeyOutsideFilter,
            ) && final(self).same_contents(old(self))),
            !(!key_too_large(key@) && probes_fit(default_hash(key@)) && old(self).filter().holds_hash(
                default_hash(key@),
            ) && log_fits(old(self).op_log(), old(self).next_op(), key@, Some(encrypted_text(key@, new_value@))))
                ==> final(self).op_log() == old(self).op_log() && final(self).next_op() == old(self).next_op(),
            !key_too_large(key@) && probes_fit(default_hash(key@)) && old(self).filter().holds_hash(
                default_hash(key@),
            ) && !log_fits(old(self).op_log(), old(self).next_op(), key@, Some(encrypted_text(key@, new_value@)))
                ==> (r matches Err(KeyValueError::LoggerError(_)) && final(self).same_contents(old(self))),
            !key_too_large(key@) && probes_fit(default_hash(key@)) && old(self).filter().holds_hash(
                default_hash(key@),
            ) && log_fits(old(self).op_log(), old(self).next_op(), key@, Some(encrypted_text(key@, new_value@)))
                ==> final(self).op_log() == logged_done(
                old(self).op_log(),
                old(self).next_op(),
                4u8,
                key@,
                Some(encrypted_text(key@, new_value@)),
            ) && final(self).next_op() == old(self).next_op() + 1,
            !key_too_large(key@) && probes_fit(default_hash(key@)) && (!old(self).filter().holds_hash(
                default_hash(key@),
            ) || log_fits(old(self).op_log(), old(self).next_op(), key@, Some(encrypted_text(key@, new_value@))))
                ==> match old(self).stored(key@) {
                None => (r matches Ok(None) && final(self).same_contents(old(self))),
                Some(v) => {
                    &&& r matches Ok(Some(t)) && t@ == decrypted_text(key@, v)
                    &&& final(self).values() == old(self).values().push(encrypted_text(key@, new_value@))
                    &&& final(self).stored(key@) == Some(encrypted_text(key@, new_value@))
                    &&& forall|k: Seq<char>| k != key@ ==> #[trigger] final(self).stored(k) == old(self).stored(k)
                },
            },
    {
        if check_key(&key).is_err() {
            return Err(KeyValueError::KeyToLarge);
        }
        let ghost before = *self;
        match self.bloom_filter.try_contains(key.as_str()) {
            None => {
                return Err(KeyValueError::KeyOutsideFilter);
            },
            Some(false) => {
                proof {
                    if before.stored(key@) is Some {
                        assert(before.bloom_filter.holds_hash(default_hash(key@)));
                    }
                }
                return Ok(None);
            },
            Some(true) => {},
        }
        let logged = encrypt(&key, new_value.clone());
        let start = match record_op(&mut self.op_logger, OperationType::Update(key.clone(), logged)) {
            Ok(st) => st,
            Err(e) => {
                proof {
                    assert(self.index() == before.index());
                    assert(self.values() == before.values());
                    assert forall|k: Seq<char>| #[trigger] self.stored(k) is Some implies probes_fit(default_hash(k))
                        && self.bloom_filter.holds_hash(default_hash(k)) && decryptable(k, self.stored(k)->0) by {
                        assert(self.stored(k) == before.stored(k));
                    }
                }
                return Err(e);
            },
        };
        let ghost logged_state = *self;
        proof {
            assert(self.index() == before.index());
            assert(self.values() == before.values());
            assert forall|k: Seq<char>| #[trigger] self.stored(k) is Some implies probes_fit(default_hash(k))
                && self.bloom_filter.holds_hash(default_hash(k)) && decryptable(k, self.stored(k)->0) by {
                assert(self.stored(k) == before.stored(k));
            }
            assert forall|k: Seq<char>| #[trigger] logged_state.stored(k) == before.stored(k) by {}
        }
        let r = self.apply_update(key, new_value);
        let ghost applied = *self;
        complete_op(&mut self.op_logger, start);
        proof {
            assert(self.index() == applied.index());
            assert(self.values() == applied.values());
            assert forall|k: Seq<char>| #[trigger] self.stored(k) is Some implies probes_fit(default_hash(k))
                && self.bloom_filter.holds_hash(default_hash(k)) && decryptable(k, self.stored(k)->0) by {
                assert(self.stored(k) == applied.stored(k));
            }
            assert forall|k: Seq<char>| #[trigger] self.stored(k) == applied.stored(k) by {}
        }
        Ok(r)
    }

    /// Takes a key out of the index (see [`KeyValueStore::delete`]).
    #[verifier::spinoff_prover]
    #[verifier::rlimit(40)]
    fn apply_delete(&mut self, key: &String)
        requires
            old(self).wf(),
        ensures
            final(self).wf(),
            final(self).name_of() == old(self).name_of(),
            final(self).values() == old(self).values(),
            final(self).filter().bit_array@ == old(self).filter().bit_array@,
            final(self).inserts_since_save() == old(self).inserts_since_save(),
            final(self).op_logger == old(self).op_logger,
            final(self).stored(key@) is None,
            forall|k: Seq<char>| k != key@ ==> #[trigger] final(self).stored(k) == old(self).stored(k),
    {
        let ghost before = *self;
        let k = chars_of(key.as_str());
        let (i, found) = self.find(&k);
        if !found {
            proof {
                lemma_seq_lt_irreflexive(key@);
                assert forall|j: int| 0 <= j < self.index().len() implies (#[trigger] self.index()[j]).0
                    != key@ by {
                    if j < i {
                        assert(seq_lt(self.index()[j].0, key@));
                    } else {
                        assert(seq_lt(key@, self.index()[j].0));
                    }
                }
                lemma_index_of_none(self.index(), key@);
            }
            return;
        }
        proof {
            lemma_index_of_at(self.index(), key@, i as int);
        }
        let loc = self.index[i].1;
        assert(self.index()[i as int].1 == loc);
        let last_enc = self.values[loc].clone();
        assert(last_enc@ =~= self.values()[loc as int]);
        let ghost ix = self.index();
        proof {
            lemma_index_remove(ix, i as int);
        }
        let _ = self.index.remove(i);
        assert(self.index() =~= ix.remove(i as int));
        let ghost after_remove = *self;
        let last_value = decrypt(key, last_enc);
        self.overwatch.get_delete(key, last_value);
        let ghost after_get = *self;
        proof {
            lemma_same_keys_len(self.overwatch.deletes(), after_remove.overwatch.deletes());
        }
        self.overwatch.remove_delete(key);
        self.overwatch.remove_update(key);
        proof {
            assert(self.index() == after_remove.index());
            assert(self.values() == after_remove.values());
            assert forall|kk: Seq<char>| kk != key@ implies #[trigger] self.stored(kk) == before.stored(kk) by {
                match index_of(ix, kk) {
                    Some(j) => {
                        assert(exists|l: int| 0 <= l < ix.len() && #[trigger] ix[l].0 == kk);
                    },
                    None => {},
                }
            }
            assert forall|j: int| 0 <= j < self.index().len() implies (#[trigger] self.index()[j]).1
                < self.values().len() by {
                let jj = if j < i { j } else { j + 1 };
                assert(self.index()[j] == ix[jj]);
            }
            assert forall|kk: Seq<char>| #[trigger] self.stored(kk) is Some implies probes_fit(default_hash(kk))
                && self.bloom_filter.holds_hash(default_hash(kk)) && decryptable(kk, self.stored(kk)->0) by {
                if kk != key@ {
                    assert(self.stored(kk) == before.stored(kk));
                }
            }
        }
    }

    /// Deletes a key: an oversized key is refused, as is a key whose hash the filter has no
    /// place for; a key the filter has not seen is left alone; otherwise the deletion is
    /// logged, the key is no longer found and every other key keeps its value, and the
    /// logged deletion is marked completed. The value written stays among the values, and
    /// the filter keeps the key's hash. The key's delete callback, if one were bound, would
    /// run with the last value, and both its callbacks would be removed (none can be bound
    /// in a store).
    #[verifier::spinoff_prover]
    #[verifier::rlimit(40)]
    pub fn delete(&mut self, key: &String) -> (r: Result<(), KeyValueError>)
        requires
            old(self).wf(),
        ensures
            final(self).wf(),
            final(self).name_of() == old(self).name_of(),
            final(self).values() == old(self).values(),
            final(self).filter().bit_array@ == old(self).filter().bit_array@,
            final(self).inserts_since_save() == old(self).inserts_since_save(),
            key_too_large(key@) ==> (r matches Err(KeyValueError::KeyToLarge) && final(self).same_contents(
                old(self),
            )),
            !key_too_large(key@) && !probes_fit(default_hash(key@)) ==> (r matches Err(
                KeyValueError::KeyOutsideFilter,
            ) && final(self).same_contents(old(self))),
            !(!key_too_large(key@) && probes_fit(default_hash(key@)) && old(self).filter().holds_hash(
                default_hash(key@),
            ) && log_fits(old(self).op_log(), old(self).next_op(), key@, None)) ==> final(self).op_log()
                == old(self).op_log() && final(self).next_op() == old(self).next_op(),
            !key_too_large(key@) && probes_fit(default_hash(key@)) && old(self).filter().holds_hash(
                default_hash(key@),
            ) && !log_fits(old(self).op_log(), old(self).next_op(), key@, None) ==> (r matches Err(
                KeyValueError::LoggerError(_),
            ) && final(self).same_contents(old(self))),
            !key_too_large(key@) && probes_fit(default_hash(key@)) && old(self).filter().holds_hash(
                default_hash(key@),
            ) && log_fits(old(self).op_log(), old(self).next_op(), key@, None) ==> final(self).op_log()
                == logged_done(old(self).op_log(), old(self).next_op(), 3u8, key@, None) && final(self).next_op()
                == old(self).next_op() + 1,
            !key_too_large(key@) && probes_fit(default_hash(key@)) && (!old(self).filter().holds_hash(
                default_hash(key@),
            ) || log_fits(old(self).op_log(), old(self).next_op(), key@, None)) ==> {
                &&& r is Ok
                &&& final(self).stored(key@) is None
                &&& forall|k: Seq<char>| k != key@ ==> #[trigger] final(self).stored(k) == old(self).stored(k)
            },
    {
        if check_key(key).is_err() {
            return Err(KeyValueError::KeyToLarge);
        }
        let ghost before = *self;
        match self.bloom_filter.try_contains(key.as_str()) {
            None => {
                return Err(KeyValueError::KeyOutsideFilter);
            },
            Some(false) => {
                proof {
                    if before.stored(key@) is Some {
                        assert(before.bloom_filter.holds_hash(default_hash(key@)));
                    }
                }
                return Ok(());
            },
            Some(true) => {},
        }
        let start = match record_op(&mut self.op_logger, OperationType::Delete(key.clone())) {
            Ok(st) => st,
            Err(e) => {
                proof {
                    assert(self.index() == before.index());
                    assert(self.values() == before.values());
                    assert forall|k: Seq<char>| #[trigger] self.stored(k) is Some implies probes_fit(default_hash(k))
                        && self.bloom_filter.holds_hash(default_hash(k)) && decryptable(k, self.stored(k)->0) by {
                        assert(self.stored(k) == before.stored(k));
                    }
                }
                return Err(e);
            },
        };
        let ghost logged_state = *self;
        proof {
            assert(self.index() == before.index());
            assert(self.values() == before.values());
            assert forall|k: Seq<char>| #[trigger] self.stored(k) is Some implies probes_fit(default_hash(k))
                && self.bloom_filter.holds_hash(default_hash(k)) && decryptable(k, self.stored(k)->0) by {
                assert(self.stored(k) == before.stored(k));
            }
            assert forall|k: Seq<char>| #[trigger] logged_state.stored(k) == before.stored(k) by {}
        }
        self.apply_delete(key);
        let ghost applied = *self;
        complete_op(&mut self.op_logger, start);
        proof {
            assert(self.index() == applied.index());
            assert(self.values() == applied.values());
            assert forall|k: Seq<char>| #[trigger] self.stored(k) is Some implies probes_fit(default_hash(k))
                && self.bloom_filter.holds_hash(default_hash(k)) && decryptable(k, self.stored(k)->0) by {
                assert(self.stored(k) == applied.stored(k));
            }
            assert forall|k: Seq<char>| #[trigger] self.stored(k) == applied.stored(k) by {}
        }
        Ok(())
    }
}


/// In ordered keys, a key found at a place is found there alone.
pub proof fn lemma_index_of_at(ix: Seq<(Seq<char>, usize)>, k: Seq<char>, i: int)
    requires
        keys_ordered(ix),
        0 <= i < ix.len(),
        ix[i].0 == k,
    ensures
        index_of(ix, k) == Some(i),
{
    assert(ix[i].0 == k);
    let j = choose|j: int| 0 <= j < ix.len() && #[trigger] ix[j].0 == k;
    lemma_seq_lt_irreflexive(k);
    if j < i {
        assert(seq_lt(ix[j].0, ix[i].0));
    } else if j > i {
        assert(seq_lt(ix[i].0, ix[j].0));
    }
}

/// A key at no place is not found.
pub proof fn lemma_index_of_none(ix: Seq<(Seq<char>, usize)>, k: Seq<char>)
    requires
        forall|i: int| 0 <= i < ix.len() ==> (#[trigger] ix[i]).0 != k,
    ensures
        index_of(ix, k) is None,
{
}


/// Putting a key at its place in ordered keys keeps them ordered; it is found there, and
/// every other key is found where it was, one further on when it came after.
pub proof fn lemma_index_insert(ix: Seq<(Seq<char>, usize)>, i: int, key: Seq<char>, loc: usize)
    requires
        keys_ordered(ix),
        0 <= i <= ix.len(),
        forall|j: int| 0 <= j < i ==> seq_lt(#[trigger] ix[j].0, key),
        forall|j: int| i <= j < ix.len() ==> seq_lt(key, #[trigger] ix[j].0),
    ensures
        keys_ordered(ix.insert(i, (key, loc))),
        index_of(ix.insert(i, (key, loc)), key) == Some(i),
        forall|k: Seq<char>|
            k != key ==> match #[trigger] index_of(ix, k) {
                None => index_of(ix.insert(i, (key, loc)), k) is None,
                Some(j) => index_of(ix.insert(i, (key, loc)), k) == Some(if j < i { j } else { j + 1 }),
            },
{
    let n = ix.insert(i, (key, loc));
    assert forall|a: int, b: int| 0 <= a < b < n.len() implies seq_lt(#[trigger] n[a].0, #[trigger] n[b].0) by {
        if a < i && b < i {
            assert(n[a] == ix[a] && n[b] == ix[b]);
        } else if a < i && b == i {
            assert(n[a] == ix[a]);
        } else if a < i {
            assert(n[a] == ix[a] && n[b] == ix[b - 1]);
            if a < b - 1 {
            }
        } else if a == i {
            assert(n[b] == ix[b - 1]);
        } else {
            assert(n[a] == ix[a - 1] && n[b] == ix[b - 1]);
        }
    }
    assert(n[i].0 == key);
    lemma_index_of_at(n, key, i);
    assert forall|k: Seq<char>| k != key implies match #[trigger] index_of(ix, k) {
        None => index_of(n, k) is None,
        Some(j) => index_of(n, k) == Some(if j < i { j } else { j + 1 }),
    } by {
        match index_of(ix, k) {
            None => {
                assert forall|j: int| 0 <= j < n.len() implies (#[trigger] n[j]).0 != k by {
                    if j < i {
                        assert(n[j] == ix[j]);
                    } else if j > i {
                        assert(n[j] == ix[j - 1]);
                    }
                }
                lemma_index_of_none(n, k);
            },
            Some(j) => {
                assert(0 <= j < ix.len() && ix[j].0 == k);
                let jj = if j < i { j } else { j + 1 };
                assert(n[jj] == ix[j]);
                lemma_index_of_at(n, k, jj);
            },
        }
    }
}

/// Giving a key's entry a new place of value keeps the keys and where each is found.
pub proof fn lemma_index_set(ix: Seq<(Seq<char>, usize)>, i: int, loc: usize)
    requires
        keys_ordered(ix),
        0 <= i < ix.len(),
    ensures
        keys_ordered(ix.update(i, (ix[i].0, loc))),
        forall|k: Seq<char>| #[trigger] index_of(ix.update(i, (ix[i].0, loc)), k) == index_of(ix, k),
{
    let n = ix.update(i, (ix[i].0, loc));
    assert forall|a: int, b: int| 0 <= a < b < n.len() implies seq_lt(#[trigger] n[a].0, #[trigger] n[b].0) by {
        assert(n[a].0 == ix[a].0 && n[b].0 == ix[b].0);
    }
    assert forall|k: Seq<char>| #[trigger] index_of(n, k) == index_of(ix, k) by {
        match index_of(ix, k) {
            None => {
                assert forall|j: int| 0 <= j < n.len() implies (#[trigger] n[j]).0 != k by {
                    assert(n[j].0 == ix[j].0);
                }
                lemma_index_of_none(n, k);
            },
            Some(j) => {
                assert(0 <= j < ix.len() && ix[j].0 == k);
                assert(n[j].0 == k);
                lemma_index_of_at(n, k, j);
            },
        }
    }
}

/// Where every key but one is found at an entry pointing at the same value as before, its
/// value read through the new index, with one value written after the old ones, is the same.
pub proof fn lemma_stored_kept(
    ix: Seq<(Seq<char>, usize)>,
    n: Seq<(Seq<char>, usize)>,
    vs: Seq<Seq<u8>>,
    v: Seq<u8>,
    key: Seq<char>,
)
    requires
        forall|j: int| 0 <= j < ix.len() ==> (#[trigger] ix[j]).1 < vs.len(),
        forall|k: Seq<char>|
            k != key ==> match #[trigger] index_of(ix, k) {
                None => index_of(n, k) is None,
                Some(j) => index_of(n, k) matches Some(jj) && n[jj] == ix[j],
            },
    ensures
        forall|k: Seq<char>|
            k != key ==> #[trigger] stored_in(n, vs.push(v), k) == stored_in(ix, vs, k),
{
    assert forall|k: Seq<char>| k != key implies #[trigger] stored_in(n, vs.push(v), k) == stored_in(ix, vs, k) by {
        match index_of(ix, k) {
            Some(j) => {
                assert(index_of(ix, k) matches Some(j) && 0 <= j < ix.len()) by {
                    assert(exists|i: int| 0 <= i < ix.len() && #[trigger] ix[i].0 == k);
                }
                assert(ix[j].1 < vs.len());
            },
            None => {},
        }
    }
}

/// Taking a key out of ordered keys keeps them ordered; it is no longer found, and every
/// other key is found at an entry with the same place of value.
pub proof fn lemma_index_remove(ix: Seq<(Seq<char>, usize)>, i: int)
    requires
        keys_ordered(ix),
        0 <= i < ix.len(),
    ensures
        keys_ordered(ix.remove(i)),
        index_of(ix.remove(i), ix[i].0) is None,
        forall|k: Seq<char>|
            k != ix[i].0 ==> match #[trigger] index_of(ix, k) {
                None => index_of(ix.remove(i), k) is None,
                Some(j) => index_of(ix.remove(i), k) matches Some(jj) && ix.remove(i)[jj] == ix[j],
            },
{
    let n = ix.remove(i);
    let key = ix[i].0;
    assert forall|a: int, b: int| 0 <= a < b < n.len() implies seq_lt(#[trigger] n[a].0, #[trigger] n[b].0) by {
        let aa = if a < i { a } else { a + 1 };
        let bb = if b < i { b } else { b + 1 };
        assert(n[a] == ix[aa] && n[b] == ix[bb]);
    }
    lemma_seq_lt_irreflexive(key);
    assert forall|j: int| 0 <= j < n.len() implies (#[trigger] n[j]).0 != key by {
        let jj = if j < i { j } else { j + 1 };
        assert(n[j] == ix[jj]);
        if jj < i {
            assert(seq_lt(ix[jj].0, ix[i].0));
        } else {
            assert(seq_lt(ix[i].0, ix[jj].0));
        }
    }
    lemma_index_of_none(n, key);
    assert forall|k: Seq<char>| k != key implies match #[trigger] index_of(ix, k) {
        None => index_of(n, k) is None,
        Some(j) => index_of(n, k) matches Some(jj) && n[jj] == ix[j],
    } by {
        match index_of(ix, k) {
            None => {
                assert forall|j: int| 0 <= j < n.len() implies (#[trigger] n[j]).0 != k by {
                    let jj = if j < i { j } else { j + 1 };
                    assert(n[j] == ix[jj]);
                }
                lemma_index_of_none(n, k);
            },
            Some(j) => {
                assert(exists|l: int| 0 <= l < ix.len() && #[trigger] ix[l].0 == k);
                assert(0 <= j < ix.len() && ix[j].0 == k);
                assert(j != i);
                let jj = if j < i { j } else { j - 1 };
                assert(n[jj] == ix[j]);
                lemma_index_of_at(n, k, jj);
            },
        }
    }
}

/// Keyed callbacks with the same keys are as many.
pub proof fn lemma_same_keys_len<C>(a: Seq<(Seq<char>, C)>, b: Seq<(Seq<char>, C)>)
    requires
        callback_keys(a) == callback_keys(b),
    ensures
        a.len() == b.len(),
{
    assert(callback_keys(a).len() == a.len());
    assert(callback_keys(b).len() == b.len());
}

/// A value inserted under a key is searched back as its text without trailing white space:
/// what the store keeps of it decrypts under the key to that text.
pub proof fn lemma_inserted_value_reads_back(key: Seq<char>, text: Seq<char>)
    ensures
        decryptable(key, encrypted_text(key, text)),
        decrypted_text(key, encrypted_text(key, text)) == trim_end(text),
{
    lemma_encrypt_decrypt(key, text);
}
} // verus!
