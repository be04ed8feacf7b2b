//! The log store: a payload stream and a fixed-width index over it.

use vstd::bytes::{
    lemma_auto_spec_u64_to_from_le_bytes, spec_u64_from_le_bytes, spec_u64_to_le_bytes,
    u64_from_le_bytes, u64_to_le_bytes,
};
use vstd::prelude::*;
use vstd::slice::{slice_subrange, slice_to_vec};

verus! {

/// Width in bytes of one encoded index entry.
pub const ENTRY_LEN: usize = 24;

/// Locates one record inside the payload stream.
#[derive(Debug, Clone, Copy, PartialEq, Eq, Structural)]
pub struct Index {
    /// Offset of the record's first byte in the payload stream.
    pub start: u64,
    /// Sequence number of the record.
    pub index: u64,
    /// Number of payload bytes.
    pub length: u64,
}

/// The 24 bytes that stand for an entry: `start`, `index` and `length`, in
/// that order, each as eight little-endian bytes.
pub open spec fn encode(entry: Index) -> Seq<u8> {
    spec_u64_to_le_bytes(entry.start) + spec_u64_to_le_bytes(entry.index) + spec_u64_to_le_bytes(
        entry.length,
    )
}

/// The entry that the first 24 bytes of `bytes` stand for.
pub open spec fn decode(bytes: Seq<u8>) -> Index {
    Index {
        start: spec_u64_from_le_bytes(bytes.subrange(0, 8)),
        index: spec_u64_from_le_bytes(bytes.subrange(8, 16)),
        length: spec_u64_from_le_bytes(bytes.subrange(16, 24)),
    }
}

/// Encoding an entry and decoding the bytes gives the entry back, whatever
/// follows the 24 bytes.
pub proof fn lemma_decode_encode(entry: Index, rest: Seq<u8>)
    ensures
        encode(entry).len() == ENTRY_LEN,
        decode(encode(entry)) == entry,
        decode(encode(entry) + rest) == entry,
{
    lemma_auto_spec_u64_to_from_le_bytes();
    assert(encode(entry).subrange(0, 8) =~= spec_u64_to_le_bytes(entry.start));
    assert(encode(entry).subrange(8, 16) =~= spec_u64_to_le_bytes(entry.index));
    assert(encode(entry).subrange(16, 24) =~= spec_u64_to_le_bytes(entry.length));
    let bytes = encode(entry) + rest;
    assert(bytes.subrange(0, 8) =~= spec_u64_to_le_bytes(entry.start));
    assert(bytes.subrange(8, 16) =~= spec_u64_to_le_bytes(entry.index));
    assert(bytes.subrange(16, 24) =~= spec_u64_to_le_bytes(entry.length));
}

/// Decoding 24 bytes and encoding the entry gives the bytes back.
pub proof fn lemma_encode_decode(bytes: Seq<u8>)
    requires
        bytes.len() == ENTRY_LEN,
    ensures
        encode(decode(bytes)) == bytes,
{
    lemma_auto_spec_u64_to_from_le_bytes();
    assert(encode(decode(bytes)) =~= bytes.subrange(0, 8) + bytes.subrange(8, 16)
        + bytes.subrange(16, 24));
    assert(bytes =~= bytes.subrange(0, 8) + bytes.subrange(8, 16) + bytes.subrange(16, 24));
}

impl Index {
    /// Reads an entry from the first 24 bytes of `bytes`.
    pub fn from_bytes(bytes: &[u8]) -> (entry: Index)
        requires
            bytes@.len() >= ENTRY_LEN,
        ensures
            entry == decode(bytes@),
    {
        let start = u64_from_le_bytes(slice_subrange(bytes, 0, 8));
        let index = u64_from_le_bytes(slice_subrange(bytes, 8, 16));
        let length = u64_from_le_bytes(slice_subrange(bytes, 16, 24));
        Index { start, index, length }
    }

    /// Writes the entry out as its 24 bytes.
    pub fn to_bytes(self) -> (bytes: [u8; 24])
        ensures
            bytes@ == encode(self),
    {
        let start = u64_to_le_bytes(self.start);
        let index = u64_to_le_bytes(self.index);
        let length = u64_to_le_bytes(self.length);
        let mut bytes = [0u8; 24];
        let mut i: usize = 0;
        while i < 8
            invariant
                i <= 8,
                start@.len() == 8,
                index@.len() == 8,
                length@.len() == 8,
                forall|j: int| 0 <= j < i ==> bytes@[j] == start@[j],
                forall|j: int| 0 <= j < i ==> bytes@[8 + j] == index@[j],
                forall|j: int| 0 <= j < i ==> bytes@[16 + j] == length@[j],
            decreases 8 - i,
        {
            bytes[i] = start[i];
            bytes[8 + i] = index[i];
            bytes[16 + i] = length[i];
            i += 1;
        }
        assert(bytes@ =~= start@ + index@ + length@);
        bytes
    }
}

/// Why a store operation was refused.
#[derive(Debug, Clone, Copy, PartialEq, Eq, Structural)]
pub enum StoreError {
    /// A read reached past the end of one of the two streams, or a write
    /// was to start past it.
    OutOfRange,
    /// An offset or a sequence number would no longer fit in 64 bits.
    Overflow,
}

/// What an append reports back: the number of bytes taken and the sequence
/// number they were filed under.
#[derive(Debug, Clone, Copy, PartialEq, Eq, Structural)]
pub struct Written {
    pub size: usize,
    pub index: u64,
}

/// The store as a mathematical value: the bytes of the two streams, the
/// offset at which the next payload starts and the sequence number it gets.
#[verifier::ext_equal]
pub struct Log {
    pub data: Seq<u8>,
    pub indices: Seq<u8>,
    pub offset: nat,
    pub index: nat,
}

/// Total number of bytes in a list of payloads.
pub open spec fn total_len(payloads: Seq<Seq<u8>>) -> nat
    decreases payloads.len(),
{
    if payloads.len() == 0 {
        0
    } else {
        total_len(payloads.drop_last()) + payloads.last().len()
    }
}

impl Log {
    /// The store before anything was appended.
    pub open spec fn empty() -> Log {
        Log { data: Seq::empty(), indices: Seq::empty(), offset: 0, index: 0 }
    }

    /// Both counters are representable in 64 bits.
    pub open spec fn fits(self) -> bool {
        self.offset <= u64::MAX && self.index <= u64::MAX
    }

    /// The entry stored at position `i` of the index stream.
    pub open spec fn entry(self, i: nat) -> Index {
        decode(self.indices.subrange(i * ENTRY_LEN, i * ENTRY_LEN + ENTRY_LEN))
    }

    /// Where record `n` begins according to the entry before it: the end of
    /// record `n - 1`, or 0 for the first record.
    pub open spec fn end_of(self, n: nat) -> nat {
        if n == 0 {
            0
        } else {
            (self.entry((n - 1) as nat).start + self.entry((n - 1) as nat).length) as nat
        }
    }

    /// The streams and the counters agree: the index stream holds one
    /// entry per record and nothing else, the entry at position `i` carries
    /// sequence number `i`, each record starts where the one before it
    /// ends, the first at 0, and the payload stream ends with the last
    /// record, at the offset kept for the next.
    pub open spec fn wf(self) -> bool {
        &&& self.fits()
        &&& self.indices.len() == self.index * ENTRY_LEN
        &&& self.data.len() == self.offset
        &&& self.offset == self.end_of(self.index)
        &&& forall|i: nat| i < self.index ==> (#[trigger] self.entry(i)).index == i
        &&& self.index > 0 ==> self.entry(0).start == 0
        &&& forall|i: nat, j: nat|
            j == i + 1 && j < self.index ==> (#[trigger] self.entry(j)).start == (
            #[trigger] self.entry(i)).start + self.entry(i).length
    }

    /// The counters lie within the streams: the payload stream reaches the
    /// offset, and the index stream the place of the next entry.
    pub open spec fn in_step(self) -> bool {
        self.offset <= self.data.len() && self.index * ENTRY_LEN <= self.indices.len()
    }

    /// Both streams end at the counters: the payload stream at the offset,
    /// the index stream behind one entry for each sequence number given
    /// out.
    pub open spec fn settled(self) -> bool {
        self.offset == self.data.len() && self.index * ENTRY_LEN == self.indices.len()
    }

    /// The entry under which a payload of `len` bytes is filed next.
    pub open spec fn next_entry(self, len: nat) -> Index {
        Index { start: self.offset as u64, index: self.index as u64, length: len as u64 }
    }

    /// Whether the store takes a payload of `len` bytes: the counters lie
    /// within the streams, and stay within 64 bits.
    pub open spec fn takes(self, len: nat) -> bool {
        self.in_step() && self.offset + len <= u64::MAX && self.index + 1 <= u64::MAX
    }

    /// Why the store refuses a payload of `len` bytes that it does not
    /// take: a counter would leave 64 bits, or else a counter points past
    /// the end of its stream.
    pub open spec fn refusal(self, len: nat) -> StoreError {
        if self.offset + len <= u64::MAX && self.index + 1 <= u64::MAX {
            StoreError::OutOfRange
        } else {
            StoreError::Overflow
        }
    }

    /// The store after `payload` has been appended. The payload goes to the
    /// offset and its entry to the place of its sequence number; what
    /// either stream held beyond that is gone, so both end with the new
    /// record.
    pub open spec fn append(self, payload: Seq<u8>) -> Log {
        Log {
            data: self.data.take(self.offset as int) + payload,
            indices: self.indices.take(self.index * ENTRY_LEN) + encode(
                self.next_entry(payload.len()),
            ),
            offset: self.offset + payload.len(),
            index: self.index + 1,
        }
    }

    /// The store after each of `payloads` has been appended, first to last.
    pub open spec fn append_all(self, payloads: Seq<Seq<u8>>) -> Log
        decreases payloads.len(),
    {
        if payloads.len() == 0 {
            self
        } else {
            self.append_all(payloads.drop_last()).append(payloads.last())
        }
    }

    /// What reading `sequence` yields: for a sequence number below the
    /// next, the entry found at its place in the index stream and the bytes
    /// that the entry points at; nothing for a sequence number from the
    /// next on, or where either stream is too short for the read.
    pub open spec fn fetch(self, sequence: nat) -> Option<(Seq<u8>, Index)> {
        if sequence < self.index && sequence * ENTRY_LEN + ENTRY_LEN <= self.indices.len() {
            let entry = self.entry(sequence);
            if entry.length == 0 {
                Some((Seq::empty(), entry))
            } else if entry.start + entry.length <= self.data.len() {
                Some(
                    (
                        self.data.subrange(entry.start as int, entry.start + entry.length),
                        entry,
                    ),
                )
            } else {
                None
            }
        } else {
            None
        }
    }

    /// The bytes that entry `i` points at.
    pub open spec fn record(self, i: nat) -> Seq<u8> {
        self.data.subrange(
            self.entry(i).start as int,
            self.entry(i).start + self.entry(i).length,
        )
    }

    /// The records of the store, by sequence number.
    pub open spec fn records(self) -> Seq<Seq<u8>> {
        Seq::new(self.index, |i: int| self.record(i as nat))
    }

    /// The store cut back to its first `n` records.
    pub open spec fn truncated(self, n: nat) -> Log {
        Log {
            data: self.data.take(self.end_of(n) as int),
            indices: self.indices.take(n * ENTRY_LEN),
            offset: self.end_of(n),
            index: n,
        }
    }

    /// The store as it is taken up again from the bytes of its two streams:
    /// the counters come from the last 24 bytes of the index stream, and are
    /// zero where it holds fewer.
    pub open spec fn recover(data: Seq<u8>, indices: Seq<u8>) -> Log {
        if indices.len() >= ENTRY_LEN {
            let last = decode(indices.subrange(indices.len() - ENTRY_LEN, indices.len() as int));
            Log {
                data,
                indices,
                offset: (last.start + last.length) as nat,
                index: (last.index + 1) as nat,
            }
        } else {
            Log { data, indices, offset: 0, index: 0 }
        }
    }
}

/// An append leaves every entry below the new one as it was.
pub proof fn lemma_append_keeps_entries(log: Log, payload: Seq<u8>, i: nat)
    requires
        log.in_step(),
        i < log.index,
    ensures
        log.append(payload).entry(i) == log.entry(i),
{
    let after = log.append(payload);
    assert(after.indices.subrange(i * ENTRY_LEN, i * ENTRY_LEN + ENTRY_LEN)
        =~= log.indices.subrange(i * ENTRY_LEN, i * ENTRY_LEN + ENTRY_LEN));
}

/// What is appended reads back, in every store that takes it: the new
/// record is read under the sequence number it was given, as the bytes
/// appended, whatever lay in the streams beyond the counters. Both streams
/// end with the new record, and taking the store up again from them gives
/// the same counters.
pub proof fn lemma_append_reads_back(log: Log, payload: Seq<u8>)
    requires
        log.takes(payload.len()),
    ensures
        log.append(payload).fits(),
        log.append(payload).settled(),
        log.append(payload).entry(log.index) == log.next_entry(payload.len()),
        log.append(payload).fetch(log.index) == Some((payload, log.next_entry(payload.len()))),
        Log::recover(log.append(payload).data, log.append(payload).indices) == log.append(payload),
{
    let after = log.append(payload);
    let entry = log.next_entry(payload.len());
    let at = log.index * ENTRY_LEN;
    lemma_decode_encode(entry, Seq::empty());
    assert(after.indices.len() == at + ENTRY_LEN);
    assert(after.indices.subrange(at as int, at + ENTRY_LEN) =~= encode(entry));
    assert(after.entry(log.index) == entry);
    assert(after.data.subrange(entry.start as int, entry.start + entry.length) =~= payload);
    assert(after.indices.subrange(after.indices.len() - ENTRY_LEN, after.indices.len() as int)
        =~= encode(entry));
}

/// An append to a well-formed store that takes it leaves a well-formed
/// store, whose new last entry says where the payload went.
pub proof fn lemma_append_wf(log: Log, payload: Seq<u8>)
    requires
        log.wf(),
        log.takes(payload.len()),
    ensures
        log.append(payload).wf(),
        log.append(payload).entry(log.index) == log.next_entry(payload.len()),
{
    let after = log.append(payload);
    let entry = log.next_entry(payload.len());
    lemma_append_reads_back(log, payload);
    assert forall|i: nat| i < log.index implies after.entry(i) == log.entry(i) by {
        lemma_append_keeps_entries(log, payload, i);
    }
    assert forall|i: nat, j: nat| j == i + 1 && j < after.index implies (#[trigger] after.entry(
        j,
    )).start == (#[trigger] after.entry(i)).start + after.entry(i).length by {
        if j == log.index {
            assert(entry.start == log.end_of(log.index));
        }
    }
}

/// Appending two lists one after the other is appending their concatenation.
pub proof fn lemma_append_all_concat(log: Log, first: Seq<Seq<u8>>, second: Seq<Seq<u8>>)
    ensures
        log.append_all(first + second) == log.append_all(first).append_all(second),
    decreases second.len(),
{
    if second.len() == 0 {
        assert(first + second =~= first);
    } else {
        assert((first + second).drop_last() =~= first + second.drop_last());
        assert((first + second).last() == second.last());
        lemma_append_all_concat(log, first, second.drop_last());
    }
}

/// A run of appends to a well-formed store that stays within 64 bits leaves
/// a well-formed store: the sequence counter has advanced by the number of
/// payloads, the offset by their total length.
pub proof fn lemma_append_all_wf(log: Log, payloads: Seq<Seq<u8>>)
    requires
        log.wf(),
        log.append_all(payloads).fits(),
    ensures
        log.append_all(payloads).wf(),
        log.append_all(payloads).index == log.index + payloads.len(),
        log.append_all(payloads).offset == log.offset + total_len(payloads),
    decreases payloads.len(),
{
    if payloads.len() > 0 {
        lemma_append_all_counts(log, payloads.drop_last());
        lemma_append_all_wf(log, payloads.drop_last());
        lemma_append_wf(log.append_all(payloads.drop_last()), payloads.last());
    }
}

/// The counters after a run of appends, whatever the store held before.
pub proof fn lemma_append_all_counts(log: Log, payloads: Seq<Seq<u8>>)
    ensures
        log.append_all(payloads).index == log.index + payloads.len(),
        log.append_all(payloads).offset == log.offset + total_len(payloads),
    decreases payloads.len(),
{
    if payloads.len() > 0 {
        lemma_append_all_counts(log, payloads.drop_last());
    }
}

/// After `n` appends to the empty store the next sequence number is `n`.
pub proof fn lemma_count_after_appends(payloads: Seq<Seq<u8>>)
    ensures
        Log::empty().append_all(payloads).index == payloads.len(),
{
    lemma_append_all_counts(Log::empty(), payloads);
}

/// An append leaves every record as it was that was filed below the
/// counters: one with a sequence number below the next and with its bytes
/// below the offset.
pub proof fn lemma_append_keeps_records(log: Log, payload: Seq<u8>, sequence: nat)
    requires
        log.in_step(),
        sequence < log.index,
        log.entry(sequence).start + log.entry(sequence).length <= log.offset,
    ensures
        log.append(payload).fetch(sequence) == log.fetch(sequence),
{
    let after = log.append(payload);
    lemma_append_keeps_entries(log, payload, sequence);
    let entry = log.entry(sequence);
    assert(sequence * ENTRY_LEN + ENTRY_LEN <= log.index * ENTRY_LEN);
    assert(after.data.subrange(entry.start as int, entry.start + entry.length)
        =~= log.data.subrange(entry.start as int, entry.start + entry.length));
}

/// A run of appends that stays within 64 bits, to a store whose counters
/// lie within its streams, leaves such a store.
pub proof fn lemma_append_all_in_step(log: Log, payloads: Seq<Seq<u8>>)
    requires
        log.in_step(),
        log.append_all(payloads).fits(),
    ensures
        log.append_all(payloads).in_step(),
    decreases payloads.len(),
{
    if payloads.len() > 0 {
        lemma_append_all_counts(log, payloads.drop_last());
        lemma_append_all_counts(log, payloads);
        lemma_append_all_in_step(log, payloads.drop_last());
        lemma_append_reads_back(log.append_all(payloads.drop_last()), payloads.last());
    }
}

/// Reading gives back what was appended: after a run of appends to a
/// store whose counters lie within its streams, the `i`-th payload of the
/// run is read under the `i`-th sequence number handed out, and its entry
/// places it behind the payloads that came before it. What the streams
/// held beyond the counters has no part in it.
pub proof fn lemma_read_back(log: Log, payloads: Seq<Seq<u8>>, i: nat)
    requires
        log.in_step(),
        log.append_all(payloads).fits(),
        i < payloads.len(),
    ensures
        log.append_all(payloads).fetch(log.index + i) == Some(
            (
                payloads[i as int],
                Index {
                    start: (log.offset + total_len(payloads.take(i as int))) as u64,
                    index: (log.index + i) as u64,
                    length: payloads[i as int].len() as u64,
                },
            ),
        ),
    decreases payloads.len(),
{
    let front = payloads.drop_last();
    let before = log.append_all(front);
    lemma_append_all_counts(log, front);
    lemma_append_all_counts(log, payloads);
    lemma_append_all_in_step(log, front);
    if i == payloads.len() - 1 {
        assert(payloads.take(i as int) =~= front);
        lemma_append_reads_back(before, payloads.last());
    } else {
        assert(front.take(i as int) =~= payloads.take(i as int));
        lemma_read_back(log, front, i);
        assert(before.entry(log.index + i).start + before.entry(log.index + i).length
            <= before.offset) by {
            assert(front.take(i as int + 1).drop_last() =~= front.take(i as int));
            lemma_total_len_take(front, i as int + 1);
        }
        lemma_append_keeps_records(before, payloads.last(), log.index + i);
    }
}

/// No sequence number from the next one on can be read, whatever the
/// streams hold.
pub proof fn lemma_fetch_past_end(log: Log, sequence: nat)
    requires
        sequence >= log.index,
    ensures
        log.fetch(sequence) is None,
{
}

/// Taking a well-formed store up again from its two streams gives the same
/// store: the counters are those that the last entry implies.
pub proof fn lemma_recover(log: Log)
    requires
        log.wf(),
    ensures
        Log::recover(log.data, log.indices) == log,
{
    if log.index > 0 {
        let last = (log.index - 1) as nat;
        assert(log.indices.subrange(log.indices.len() - ENTRY_LEN, log.indices.len() as int)
            =~= log.indices.subrange(last * ENTRY_LEN, last * ENTRY_LEN + ENTRY_LEN));
        assert(log.entry(last).index == last);
    }
}

/// A store that is taken up again between two runs of appends ends as the
/// store that received both runs without a break, so every record of either
/// run reads back as it was appended.
pub proof fn lemma_restart_between_appends(first: Seq<Seq<u8>>, second: Seq<Seq<u8>>, i: nat)
    requires
        Log::empty().append_all(first + second).fits(),
        i < first.len() + second.len(),
    ensures
        ({
            let stopped = Log::empty().append_all(first);
            let resumed = Log::recover(stopped.data, stopped.indices).append_all(second);
            &&& resumed == Log::empty().append_all(first + second)
            &&& resumed.fetch(i) == Some(
                (
                    (first + second)[i as int],
                    Index {
                        start: total_len((first + second).take(i as int)) as u64,
                        index: i as u64,
                        length: (first + second)[i as int].len() as u64,
                    },
                ),
            )
        }),
{
    let stopped = Log::empty().append_all(first);
    lemma_append_all_concat(Log::empty(), first, second);
    lemma_append_all_counts(Log::empty(), first);
    lemma_append_all_counts(stopped, second);
    lemma_append_all_wf(Log::empty(), first);
    lemma_recover(stopped);
    lemma_read_back(Log::empty(), first + second, i);
}

/// In a well-formed store each record ends where the next begins, so none
/// ends behind a later one.
pub proof fn lemma_ends_ascend(log: Log, i: nat, j: nat)
    requires
        log.wf(),
        i <= j <= log.index,
    ensures
        log.end_of(i) <= log.end_of(j),
    decreases j - i,
{
    if i < j {
        assert(log.entry(i).start == log.end_of(i));
        assert(log.end_of(i + 1) == log.entry(i).start + log.entry(i).length);
        lemma_ends_ascend(log, i + 1, j);
    }
}

/// A well-formed store reads as its list of records: a sequence number
/// below the count gives its record and entry, any other gives nothing.
pub proof fn lemma_fetch_wf(log: Log, sequence: nat)
    requires
        log.wf(),
    ensures
        log.fetch(sequence) == if sequence < log.index {
            Some((log.records()[sequence as int], log.entry(sequence)))
        } else {
            None
        },
{
    if sequence < log.index {
        lemma_ends_ascend(log, sequence + 1, log.index);
        assert(log.entry(sequence).start == log.end_of(sequence));
        if log.entry(sequence).length == 0 {
            assert(log.record(sequence) =~= Seq::<u8>::empty());
        }
    }
}

/// An append to a well-formed store adds the payload as its last record
/// and leaves the others as they were.
pub proof fn lemma_append_records(log: Log, payload: Seq<u8>)
    requires
        log.wf(),
        log.takes(payload.len()),
    ensures
        log.append(payload).records() == log.records().push(payload),
{
    let after = log.append(payload);
    lemma_append_wf(log, payload);
    assert forall|i: int| 0 <= i < after.index implies after.records()[i] == log.records().push(
        payload,
    )[i] by {
        if i < log.index {
            lemma_append_keeps_entries(log, payload, i as nat);
            lemma_ends_ascend(log, i as nat + 1, log.index);
            assert(log.entry(i as nat).start == log.end_of(i as nat));
            assert(after.record(i as nat) =~= log.record(i as nat));
        } else {
            assert(after.record(i as nat) =~= payload);
        }
    }
    assert(after.records() =~= log.records().push(payload));
}

/// The records of a store that grew from the empty one by appends are the
/// payloads appended, in their order.
pub proof fn lemma_records_after_appends(payloads: Seq<Seq<u8>>)
    requires
        Log::empty().append_all(payloads).fits(),
    ensures
        Log::empty().append_all(payloads).records() == payloads,
    decreases payloads.len(),
{
    if payloads.len() == 0 {
        assert(Log::empty().records() =~= payloads);
    } else {
        lemma_append_all_counts(Log::empty(), payloads.drop_last());
        lemma_append_all_wf(Log::empty(), payloads.drop_last());
        lemma_records_after_appends(payloads.drop_last());
        lemma_append_records(Log::empty().append_all(payloads.drop_last()), payloads.last());
        assert(payloads.drop_last().push(payloads.last()) =~= payloads);
    }
}

/// Cutting a well-formed store back by one record less is appending that
/// record to the shorter cut.
pub proof fn lemma_truncated_step(log: Log, n: nat)
    requires
        log.wf(),
        n < log.index,
    ensures
        log.truncated(n + 1) == log.truncated(n).append(log.record(n)),
{
    let entry = log.entry(n);
    let short = log.truncated(n);
    let long = log.truncated(n + 1);
    let from = log.end_of(n) as int;
    let to = log.end_of(n + 1) as int;
    let at = (n * ENTRY_LEN) as int;
    assert(entry.start == from && entry.index == n);
    assert(to == from + entry.length);
    assert(to <= log.data.len()) by {
        lemma_ends_ascend(log, n + 1, log.index);
    }
    assert(long.data == short.data + log.record(n)) by {
        assert(log.data.take(to) =~= log.data.take(from) + log.data.subrange(from, to));
    }
    assert(long.indices == short.indices + encode(entry)) by {
        let bytes = log.indices.subrange(at, at + ENTRY_LEN);
        lemma_encode_decode(bytes);
        assert(log.indices.take(at + ENTRY_LEN) =~= log.indices.take(at) + bytes);
    }
    assert(short.data.take(short.offset as int) =~= short.data);
    assert(short.indices.take(short.index * ENTRY_LEN) =~= short.indices);
}

/// A well-formed store is what appending its records to the empty store,
/// one after the other, makes.
pub proof fn lemma_wf_is_appended(log: Log)
    requires
        log.wf(),
    ensures
        log == Log::empty().append_all(log.records()),
{
    lemma_truncated_is_appended(log, log.index);
    assert(log.records().take(log.index as int) =~= log.records());
    assert(log.truncated(log.index).data =~= log.data);
    assert(log.truncated(log.index).indices =~= log.indices);
}

/// The first `n` records of a well-formed store, appended to the empty
/// store, make the store cut back to them.
pub proof fn lemma_truncated_is_appended(log: Log, n: nat)
    requires
        log.wf(),
        n <= log.index,
    ensures
        log.truncated(n) == Log::empty().append_all(log.records().take(n as int)),
    decreases n,
{
    let records = log.records().take(n as int);
    if n == 0 {
        assert(log.truncated(0).data =~= Seq::<u8>::empty());
        assert(log.truncated(0).indices =~= Seq::<u8>::empty());
    } else {
        let before = (n - 1) as nat;
        lemma_truncated_is_appended(log, before);
        lemma_truncated_step(log, before);
        assert(records.drop_last() =~= log.records().take(before as int));
        assert(records.last() == log.record(before));
    }
}

/// Payloads laid end to end are as long as the payloads together.
pub proof fn lemma_flatten_len(payloads: Seq<Seq<u8>>)
    ensures
        payloads.flatten().len() == total_len(payloads),
    decreases payloads.len(),
{
    if payloads.len() > 0 {
        lemma_flatten_len(payloads.drop_last());
        payloads.drop_last().lemma_flatten_push(payloads.last());
        assert(payloads.drop_last().push(payloads.last()) =~= payloads);
    }
}

/// The payload stream of a store that grew from the empty one by appends
/// is the payloads laid end to end, without gap or overlap.
pub proof fn lemma_data_after_appends(payloads: Seq<Seq<u8>>)
    ensures
        Log::empty().append_all(payloads).data == payloads.flatten(),
    decreases payloads.len(),
{
    if payloads.len() == 0 {
        assert(payloads.flatten() =~= Seq::<u8>::empty());
    } else {
        let before = Log::empty().append_all(payloads.drop_last());
        lemma_data_after_appends(payloads.drop_last());
        lemma_flatten_len(payloads.drop_last());
        lemma_append_all_counts(Log::empty(), payloads.drop_last());
        assert(before.data.take(before.offset as int) =~= before.data);
        payloads.drop_last().lemma_flatten_push(payloads.last());
        assert(payloads.drop_last().push(payloads.last()) =~= payloads);
    }
}

/// Each record of a store that grew from the empty one by appends starts
/// at the total length of the payloads appended before it.
pub proof fn lemma_start_offsets(payloads: Seq<Seq<u8>>, i: nat)
    requires
        Log::empty().append_all(payloads).fits(),
        i < payloads.len(),
    ensures
        Log::empty().append_all(payloads).entry(i).start == total_len(payloads.take(i as int)),
{
    lemma_read_back(Log::empty(), payloads, i);
    lemma_append_all_counts(Log::empty(), payloads);
    lemma_append_all_counts(Log::empty(), payloads.take(i as int));
    lemma_total_len_take(payloads, i as int);
}

/// The total length of a list of payloads does not shrink as the list
/// grows.
pub proof fn lemma_total_len_take(payloads: Seq<Seq<u8>>, n: int)
    requires
        0 <= n <= payloads.len(),
    ensures
        total_len(payloads.take(n)) <= total_len(payloads),
    decreases payloads.len(),
{
    if n < payloads.len() {
        assert(payloads.drop_last().take(n) =~= payloads.take(n));
        lemma_total_len_take(payloads.drop_last(), n);
    } else {
        assert(payloads.take(n) =~= payloads);
    }
}

/// The log store: the payload stream, the index stream, and the two
/// counters that say where the next record goes.
pub struct State {
    data: Vec<u8>,
    indices: Vec<u8>,
    offset: u64,
    index: u64,
}

impl View for State {
    type V = Log;

    closed spec fn view(&self) -> Log {
        Log {
            data: self.data@,
            indices: self.indices@,
            offset: self.offset as nat,
            index: self.index as nat,
        }
    }
}

impl State {
    /// The counters of a store always fit in 64 bits.
    pub proof fn lemma_fits(&self)
        ensures
            self@.fits(),
    {
    }

    /// Takes up a store from the bytes of its two streams. Only the last
    /// index entry is looked at: it alone says where the next record goes.
    /// Bytes that either stream holds beyond that stay until the next
    /// append cuts them off, and have no part in what it files.
    pub fn new(data: Vec<u8>, indices: Vec<u8>) -> (r: Result<State, StoreError>)
        ensures
            match r {
                Ok(state) => state@ == Log::recover(data@, indices@) && state@.fits(),
                Err(e) => e == StoreError::Overflow && !Log::recover(data@, indices@).fits(),
            },
    {
        let (index, offset) = match State::get_last_index(&indices) {
            Some(last) => {
                if last.index == u64::MAX || last.length > u64::MAX - last.start {
                    return Err(StoreError::Overflow);
                }
                (last.index + 1, last.start + last.length)
            },
            None => (0, 0),
        };
        Ok(State { data, indices, offset, index })
    }

    /// One past the highest sequence number written: the number of records.
    pub fn last(&self) -> (n: u64)
        ensures
            n == self@.index,
    {
        self.index
    }

    /// The bytes of the payload stream.
    pub fn data(&self) -> (bytes: &Vec<u8>)
        ensures
            bytes@ == self@.data,
    {
        &self.data
    }

    /// The bytes of the index stream.
    pub fn indices(&self) -> (bytes: &Vec<u8>)
        ensures
            bytes@ == self@.indices,
    {
        &self.indices
    }

    fn get_last_index(indices: &Vec<u8>) -> (r: Option<Index>)
        ensures
            r == if indices@.len() >= ENTRY_LEN {
                Some(decode(indices@.subrange(indices@.len() - ENTRY_LEN, indices@.len() as int)))
            } else {
                None
            },
    {
        let len = indices.len();
        if len < ENTRY_LEN {
            return None;
        }
        Some(Index::from_bytes(slice_subrange(indices.as_slice(), len - ENTRY_LEN, len)))
    }

    /// The entry under which `size` bytes would be filed next, or why the
    /// store does not take them: a counter would leave 64 bits, or a
    /// counter points past the end of its stream. `write` succeeds on
    /// exactly the sizes that get an entry here.
    pub fn next_entry(&self, size: usize) -> (r: Result<Index, StoreError>)
        ensures
            match r {
                Ok(entry) => self@.takes(size as nat) && entry == self@.next_entry(size as nat),
                Err(e) => !self@.takes(size as nat) && e == self@.refusal(size as nat),
            },
    {
        if self.index == u64::MAX || size as u64 > u64::MAX - self.offset {
            return Err(StoreError::Overflow);
        }
        if self.offset > self.data.len() as u64 || self.index > (self.indices.len()
            / ENTRY_LEN) as u64 {
            return Err(StoreError::OutOfRange);
        }
        Ok(Index { start: self.offset, index: self.index, length: size as u64 })
    }

    /// Appends `data` as the next record: the payload at the offset, its
    /// entry at the place of its sequence number, and both streams cut
    /// back to end there. The record then reads back under the sequence
    /// number returned, whatever the streams held beyond the counters. The
    /// store refuses, and stays as it is, where a counter would leave
    /// 64 bits (`Overflow`) or points past the end of its stream
    /// (`OutOfRange`).
    pub fn write(&mut self, data: &[u8]) -> (r: Result<Written, StoreError>)
        ensures
            match r {
                Ok(written) => {
                    &&& old(self)@.takes(data@.len())
                    &&& final(self)@ == old(self)@.append(data@)
                    &&& written.size == data@.len()
                    &&& written.index == old(self)@.index
                    &&& final(self)@.settled()
                    &&& final(self)@.fetch(old(self)@.index) == Some(
                        (data@, old(self)@.next_entry(data@.len())),
                    )
                    &&& old(self)@.wf() ==> final(self)@.wf() && final(self)@.records() == old(
                        self,
                    )@.records().push(data@)
                },
                Err(e) => {
                    &&& !old(self)@.takes(data@.len())
                    &&& e == old(self)@.refusal(data@.len())
                    &&& final(self)@ == old(self)@
                },
            },
    {
        let entry = match self.next_entry(data.len()) {
            Ok(entry) => entry,
            Err(e) => {
                return Err(e);
            },
        };
        let bytes = entry.to_bytes();
        assert(self.index * ENTRY_LEN <= self.indices.len());
        self.data.truncate(self.offset as usize);
        self.data.extend_from_slice(data);
        self.indices.truncate(self.index as usize * ENTRY_LEN);
        self.indices.extend_from_slice(bytes.as_slice());
        self.offset = self.offset + entry.length;
        self.index = self.index + 1;
        proof {
            let after = old(self)@.append(data@);
            assert(self@.data =~= after.data);
            assert(self@.indices =~= after.indices);
            lemma_append_reads_back(old(self)@, data@);
            if old(self)@.wf() {
                lemma_append_wf(old(self)@, data@);
                lemma_append_records(old(self)@, data@);
            }
        }
        Ok(Written { size: data.len(), index: entry.index })
    }

    /// Reads the record filed under `idx`, with its index entry, and
    /// leaves the store as it is. No number from `last()` on can be read.
    /// In a well-formed store every number below can, and gives the record
    /// appended under it.
    pub fn read(&mut self, idx: u64) -> (r: Result<(Vec<u8>, Index), StoreError>)
        ensures
            *final(self) == *old(self),
            match old(self)@.fetch(idx as nat) {
                Some((bytes, entry)) => r matches Ok(found) && found.0@ == bytes && found.1
                    == entry,
                None => r == Err::<(Vec<u8>, Index), StoreError>(StoreError::OutOfRange),
            },
            idx >= old(self)@.index ==> r is Err,
            old(self)@.wf() && idx < old(self)@.index ==> ({
                &&& r matches Ok(found)
                &&& found.0@ == old(self)@.records()[idx as int]
                &&& found.1.index == idx
            }),
    {
        proof {
            if self@.wf() {
                lemma_fetch_wf(self@, idx as nat);
            }
        }
        let held = self.indices.len() as u64;
        if idx >= self.index || held < ENTRY_LEN as u64 || idx > (held - ENTRY_LEN as u64) / (ENTRY_LEN as u64) {
            return Err(StoreError::OutOfRange);
        }
        let at = (idx * ENTRY_LEN as u64) as usize;
        let entry = Index::from_bytes(slice_subrange(self.indices.as_slice(), at, at + ENTRY_LEN));
        if entry.length == 0 {
            return Ok((Vec::new(), entry));
        }
        let stored = self.data.len() as u64;
        if entry.start > stored || entry.length > stored - entry.start {
            return Err(StoreError::OutOfRange);
        }
        let from = entry.start as usize;
        let to = (entry.start + entry.length) as usize;
        let bytes = slice_to_vec(slice_subrange(self.data.as_slice(), from, to));
        Ok((bytes, entry))
    }
}

} // verus!
