//! The durable channel: record framing and the rules by which a producer
//! and the consumer walk the numbered queue files.
//!
//! A channel is a directory of files named `0`, `1`, `2`, ... The highest
//! one is the active file, to which producers append; the lower ones are
//! sealed. Nothing here touches the file system: the functions of this
//! module decide, and their caller opens, writes, seals and unlinks.

use crate::decimal::{all_digits, digits_value, parse_digits};
use vstd::prelude::*;
use vstd::utf8::encode_utf8;

verus! {

/// The largest payload that the consumer accepts, in bytes.
pub const MAX_PAYLOAD: usize = 1_048_576;

/// The number of payload bytes after which a producer made by `channel`
/// seals the active file.
pub const DEFAULT_MAX_BYTES: usize = 10_485_760;

/// How long the consumer sleeps at the end of a file that is still being
/// written, in milliseconds.
pub const EOF_WAIT_MILLIS: u64 = 10;

/// The four prefix bytes that stand for the length `v`, in the order in
/// which they lie in a file: the low byte, the second byte, the high byte,
/// the third byte.
pub open spec fn prefix_of(v: u32) -> Seq<u8> {
    seq![
        (v & 0xff) as u8,
        ((v >> 8) & 0xff) as u8,
        ((v >> 24) & 0xff) as u8,
        ((v >> 16) & 0xff) as u8,
    ]
}

/// The length that the first four bytes of `b` stand for.
pub open spec fn length_of(b: Seq<u8>) -> int
    recommends
        b.len() >= 4,
{
    b[0] as int + 256 * (b[1] as int) + 16777216 * (b[2] as int) + 65536 * (b[3] as int)
}

/// Splits a record length into its four prefix bytes.
pub fn u32tou8abe(v: u32) -> (b: [u8; 4])
    ensures
        b@ == prefix_of(v),
{
    let b0: u8 = (v & 0xff) as u8;
    let b1: u8 = ((v >> 8) & 0xff) as u8;
    let b2: u8 = ((v >> 24) & 0xff) as u8;
    let b3: u8 = ((v >> 16) & 0xff) as u8;
    let b: [u8; 4] = [b0, b1, b2, b3];
    assert(b@ =~= prefix_of(v));
    b
}

/// Reads a record length back from the first four bytes of `v`.
pub fn u8tou32abe(v: &[u8]) -> (len: u32)
    requires
        v@.len() >= 4,
    ensures
        len as int == length_of(v@),
{
    let b0: u32 = v[0] as u32;
    let b1: u32 = v[1] as u32;
    let b2: u32 = v[2] as u32;
    let b3: u32 = v[3] as u32;
    assert(b1 << 8 == b1 * 256) by (bit_vector)
        requires
            b1 < 256,
    ;
    assert(b2 << 24 == b2 * 16777216) by (bit_vector)
        requires
            b2 < 256,
    ;
    assert(b3 << 16 == b3 * 65536) by (bit_vector)
        requires
            b3 < 256,
    ;
    b0 + (b1 << 8) + (b2 << 24) + (b3 << 16)
}

/// What `u8tou32abe` reads from the bytes that `u32tou8abe` made is the
/// length that they were made of.
pub proof fn lemma_prefix_round_trip(v: u32)
    ensures
        prefix_of(v).len() == 4,
        length_of(prefix_of(v)) == v as int,
{
    let a0: u8 = (v & 0xff) as u8;
    let a1: u8 = ((v >> 8) & 0xff) as u8;
    let a2: u8 = ((v >> 24) & 0xff) as u8;
    let a3: u8 = ((v >> 16) & 0xff) as u8;
    assert(a0 as u32 + 256 * (a1 as u32) + 16777216 * (a2 as u32) + 65536 * (a3 as u32) == v)
        by (bit_vector)
        requires
            a0 == (v & 0xff) as u8,
            a1 == ((v >> 8) & 0xff) as u8,
            a2 == ((v >> 24) & 0xff) as u8,
            a3 == ((v >> 16) & 0xff) as u8,
    ;
}

/// One record as it lies in a file: the prefix of the payload's length,
/// then the payload.
pub open spec fn frame_of(payload: Seq<u8>) -> Seq<u8>
    recommends
        payload.len() <= u32::MAX,
{
    prefix_of(payload.len() as u32) + payload
}

/// The bytes that a run of records takes in a file, first record first.
pub open spec fn frames_of(payloads: Seq<Seq<u8>>) -> Seq<u8>
    decreases payloads.len(),
{
    if payloads.len() == 0 {
        Seq::empty()
    } else {
        frame_of(payloads.first()) + frames_of(payloads.drop_first())
    }
}

/// The payload of the record that `bytes` starts with, if a whole record is
/// there: four prefix bytes and as many payload bytes as they announce.
pub open spec fn first_record(bytes: Seq<u8>) -> Option<Seq<u8>> {
    if bytes.len() < 4 {
        None
    } else if 4 + length_of(bytes) <= bytes.len() {
        Some(bytes.subrange(4, 4 + length_of(bytes)))
    } else {
        None
    }
}

/// The payloads of the whole records that `bytes` holds, in order. A
/// record that is cut short ends the run.
pub open spec fn records_of(bytes: Seq<u8>) -> Seq<Seq<u8>>
    decreases bytes.len(),
{
    match first_record(bytes) {
        None => Seq::empty(),
        Some(p) => seq![p] + records_of(bytes.skip(4 + p.len() as int)),
    }
}

/// Whether every payload is short enough for its length to be framed.
pub open spec fn all_frameable(payloads: Seq<Seq<u8>>) -> bool {
    forall|i: int| 0 <= i < payloads.len() ==> (#[trigger] payloads[i]).len() <= u32::MAX
}

/// A record read back from its frame, with anything after it, is the
/// payload that was framed.
pub proof fn lemma_first_record_of_frame(payload: Seq<u8>, rest: Seq<u8>)
    requires
        payload.len() <= u32::MAX,
    ensures
        first_record(frame_of(payload) + rest) == Some(payload),
        (frame_of(payload) + rest).skip(4 + payload.len() as int) == rest,
{
    let v = payload.len() as u32;
    lemma_prefix_round_trip(v);
    let bytes = frame_of(payload) + rest;
    let sp = prefix_of(v);
    assert(bytes[0] == sp[0] && bytes[1] == sp[1] && bytes[2] == sp[2] && bytes[3] == sp[3]);
    assert(length_of(bytes) == length_of(sp));
    assert(bytes.subrange(4, 4 + payload.len() as int) =~= payload);
    assert(bytes.skip(4 + payload.len() as int) =~= rest);
}

/// Appending one more record to a file appends its frame to the bytes.
pub proof fn lemma_frames_push(payloads: Seq<Seq<u8>>, payload: Seq<u8>)
    ensures
        frames_of(payloads.push(payload)) == frames_of(payloads) + frame_of(payload),
    decreases payloads.len(),
{
    let all = payloads.push(payload);
    if payloads.len() == 0 {
        assert(all.drop_first() =~= Seq::<Seq<u8>>::empty());
        assert(frames_of(all.drop_first()) =~= Seq::<u8>::empty());
        assert(frames_of(all) =~= frame_of(payload));
        assert(frames_of(payloads) + frame_of(payload) =~= frame_of(payload));
    } else {
        lemma_frames_push(payloads.drop_first(), payload);
        assert(all.drop_first() =~= payloads.drop_first().push(payload));
        assert(all.first() == payloads.first());
        assert(frames_of(all) =~= frames_of(payloads) + frame_of(payload));
    }
}

/// The bytes of two runs of records, one after the other, are the bytes of
/// the joined run.
pub proof fn lemma_frames_concat(a: Seq<Seq<u8>>, b: Seq<Seq<u8>>)
    ensures
        frames_of(a + b) == frames_of(a) + frames_of(b),
    decreases b.len(),
{
    if b.len() == 0 {
        assert(a + b =~= a);
        assert(frames_of(a) + frames_of(b) =~= frames_of(a));
    } else {
        lemma_frames_concat(a, b.drop_last());
        lemma_frames_push(a + b.drop_last(), b.last());
        lemma_frames_push(b.drop_last(), b.last());
        assert(b.drop_last().push(b.last()) =~= b);
        assert((a + b.drop_last()).push(b.last()) =~= a + b);
        assert(frames_of(a + b) =~= frames_of(a) + frames_of(b));
    }
}

/// What is read from a file is what was written to it: the records of the
/// written bytes are the payloads that were sent, in the order of sending.
#[verifier::spinoff_prover]
pub proof fn lemma_records_of_frames(payloads: Seq<Seq<u8>>)
    requires
        all_frameable(payloads),
    ensures
        records_of(frames_of(payloads)) == payloads,
    decreases payloads.len(),
{
    if payloads.len() == 0 {
        assert(frames_of(payloads).len() == 0);
        assert(first_record(frames_of(payloads)) is None);
        assert(records_of(frames_of(payloads)) =~= payloads);
    } else {
        let first = payloads.first();
        let rest = payloads.drop_first();
        assert(all_frameable(rest)) by {
            assert forall|i: int| 0 <= i < rest.len() implies (#[trigger] rest[i]).len()
                <= u32::MAX by {
                assert(rest[i] == payloads[i + 1]);
            }
        }
        lemma_records_of_frames(rest);
        let bytes = frames_of(payloads);
        assert(bytes == frame_of(first) + frames_of(rest));
        lemma_first_record_of_frame(first, frames_of(rest));
        assert(first_record(bytes) == Some(first));
        assert(bytes.skip(4 + first.len() as int) == frames_of(rest));
        assert(records_of(bytes) == seq![first] + records_of(frames_of(rest)));
        assert(seq![first] + rest =~= payloads);
    }
}

/// Why a record cannot be sent.
#[derive(Debug, Clone, Copy, PartialEq, Eq)]
pub enum SendError {
    /// The payload's length does not fit the four prefix bytes.
    TooLarge,
    /// The file index cannot grow any further.
    Exhausted,
}

/// Frames `payload` for the file: `None` when its length does not fit the
/// four prefix bytes.
pub fn encode_frame(payload: &[u8]) -> (r: Option<Vec<u8>>)
    ensures
        r is Some <==> payload@.len() <= u32::MAX,
        r is Some ==> r.unwrap()@ == frame_of(payload@),
{
    if payload.len() > 0xffff_ffff {
        return None;
    }
    let n: u32 = payload.len() as u32;
    let b = u32tou8abe(n);
    let mut out: Vec<u8> = Vec::new();
    out.push(b[0]);
    out.push(b[1]);
    out.push(b[2]);
    out.push(b[3]);
    assert(out@ =~= prefix_of(n));
    let mut i: usize = 0;
    while i < payload.len()
        invariant
            i <= payload@.len(),
            out@ == prefix_of(n) + payload@.take(i as int),
        decreases payload@.len() - i,
    {
        out.push(payload[i]);
        assert(out@ =~= prefix_of(n) + payload@.take(i + 1));
        i = i + 1;
    }
    assert(payload@.take(payload@.len() as int) =~= payload@);
    Some(out)
}

/// The index that a file name stands for: the name is a digit string whose
/// number fits in a `usize`. Any other name is no queue file.
pub open spec fn index_of_name(name: Seq<char>) -> Option<usize> {
    let b = encode_utf8(name);
    if b.len() > 0 && all_digits(b) && digits_value(b) <= usize::MAX {
        Some(digits_value(b) as usize)
    } else {
        None
    }
}

/// Whether some name in `names` is that of a queue file.
pub open spec fn has_index(names: Seq<String>) -> bool {
    exists|i: int| 0 <= i < names.len() && index_of_name(#[trigger] names[i]@) is Some
}

/// Whether `m` is the highest index among the queue files in `names`.
pub open spec fn is_latest(names: Seq<String>, m: usize) -> bool {
    &&& exists|i: int| 0 <= i < names.len() && index_of_name(#[trigger] names[i]@) == Some(m)
    &&& forall|j: int|
        0 <= j < names.len() && index_of_name(#[trigger] names[j]@) is Some ==> index_of_name(
            names[j]@,
        ).unwrap() <= m
}

/// Reads a file name as a queue index.
pub fn parse_index(name: &str) -> (r: Option<usize>)
    ensures
        r == index_of_name(name@),
{
    let bytes = name.as_bytes();
    match parse_digits(bytes, 0, bytes.len()) {
        None => {
            assert(bytes@.subrange(0, bytes@.len() as int) =~= bytes@);
            None
        },
        Some(v) => {
            assert(bytes@.subrange(0, bytes@.len() as int) =~= bytes@);
            if v <= usize::MAX as u64 {
                Some(v as usize)
            } else {
                None
            }
        },
    }
}

/// The highest index among the queue files that a directory listing names,
/// or `None` when it names none.
pub fn latest_index(names: &Vec<String>) -> (r: Option<usize>)
    ensures
        r is Some <==> has_index(names@),
        r is Some ==> is_latest(names@, r.unwrap()),
{
    let mut best: Option<usize> = None;
    let mut i: usize = 0;
    while i < names.len()
        invariant
            i <= names@.len(),
            best is None ==> forall|j: int|
                0 <= j < i ==> index_of_name(#[trigger] names@[j]@) is None,
            best is Some ==> is_latest(names@.take(i as int), best.unwrap()),
        decreases names@.len() - i,
    {
        let found = parse_index(names[i].as_str());
        let ghost before = names@.take(i as int);
        let ghost after = names@.take(i + 1);
        proof {
            assert(after[i as int] == names@[i as int]);
            assert forall|j: int| 0 <= j < i implies after[j] == before[j] by {}
        }
        match found {
            None => {
                proof {
                    if best is Some {
                        let w = choose|w: int|
                            0 <= w < before.len() && index_of_name(#[trigger] before[w]@) == Some(
                                best.unwrap(),
                            );
                        assert(after[w] == before[w]);
                        assert forall|j: int|
                            0 <= j < after.len() && index_of_name(
                                #[trigger] after[j]@,
                            ) is Some implies index_of_name(after[j]@).unwrap()
                            <= best.unwrap() by {
                            if j < i {
                                assert(after[j] == before[j]);
                            }
                        }
                    }
                }
            },
            Some(k) => {
                let keep: bool = match best {
                    Some(m) => m >= k,
                    None => false,
                };
                proof {
                    if keep {
                        let w = choose|w: int|
                            0 <= w < before.len() && index_of_name(#[trigger] before[w]@) == Some(
                                best.unwrap(),
                            );
                        assert(after[w] == before[w]);
                    }
                    let top: usize = if keep {
                        best.unwrap()
                    } else {
                        k
                    };
                    assert forall|j: int|
                        0 <= j < after.len() && index_of_name(
                            #[trigger] after[j]@,
                        ) is Some implies index_of_name(after[j]@).unwrap() <= top by {
                        if j < i {
                            assert(after[j] == before[j]);
                            if best is None {
                                assert(names@[j] == before[j]);
                            }
                        }
                    }
                }
                if !keep {
                    best = Some(k);
                }
            },
        }
        i = i + 1;
    }
    proof {
        assert(names@.take(names@.len() as int) =~= names@);
    }
    best
}

/// A producer's place in the queue: the index of the file it appends to,
/// how many payload bytes it has put there since it opened it, and the
/// number of payload bytes after which it seals a file.
#[derive(Debug, PartialEq, Eq)]
pub struct Sender {
    /// Payload bytes counted against the active file.
    pub bytes_written: usize,
    /// Payload bytes after which the active file is sealed.
    pub max_bytes: usize,
    /// Index of the file that this producer appends to.
    pub seq_num: usize,
}

/// What the caller of `Sender::send` has to do with the files, in this
/// order: catch up, roll over, append.
#[derive(Debug, Clone, PartialEq, Eq)]
pub struct SendPlan {
    /// Close the file in hand and open the file of this index for append:
    /// another producer has rolled the queue over.
    pub reopen: Option<usize>,
    /// Make the file of this index read-only, create and open the next one
    /// for append, and add one to the shared index.
    pub seal: Option<usize>,
    /// Append these bytes to the file of index `seq_num`.
    pub frame: Vec<u8>,
}

/// Whether a producer in state `s` that sees the shared index `global`
/// moves to the file of that index before it writes.
pub open spec fn catches_up(s: Sender, global: usize) -> bool {
    s.seq_num < global
}

/// The payload bytes counted against the active file once a payload of
/// `len` bytes is taken in and the producer has caught up.
pub open spec fn counted_bytes(s: Sender, len: nat, global: usize) -> nat {
    if catches_up(s, global) {
        0
    } else {
        (s.bytes_written + len) as nat
    }
}

/// Whether the producer seals its file before it writes the payload.
pub open spec fn rolls_over(s: Sender, len: nat, global: usize) -> bool {
    counted_bytes(s, len, global) > s.max_bytes
}

/// The index of the file that the payload is appended to.
pub open spec fn target_index(s: Sender, len: nat, global: usize) -> nat {
    let at: nat = if catches_up(s, global) {
        global as nat
    } else {
        s.seq_num as nat
    };
    if rolls_over(s, len, global) {
        at + 1
    } else {
        at
    }
}

/// What `Sender::send` does: how the producer `after` and the outcome `r`
/// follow from the producer `before`, the payload and the shared index that
/// was read.
///
/// A payload whose length does not fit the prefix is refused, and so is one
/// for which a file would have to be sealed with no index left for the
/// next; the producer then stays as it was. Otherwise the plan has the
/// producer catch up where the shared index is ahead of it, seal the file
/// it then holds where the counted bytes have passed `max_bytes`, and
/// append the payload's frame; the producer moves to the file that the
/// frame goes to, and its count starts again at zero with a new file.
pub open spec fn sent_as(
    before: Sender,
    after: Sender,
    payload: Seq<u8>,
    global: usize,
    r: Result<SendPlan, SendError>,
) -> bool {
    let len = payload.len();
    let target = target_index(before, len, global);
    let rolls = rolls_over(before, len, global);
    if len > u32::MAX {
        r == Err::<SendPlan, SendError>(SendError::TooLarge) && after == before
    } else if target > usize::MAX {
        r == Err::<SendPlan, SendError>(SendError::Exhausted) && after == before
    } else {
        &&& r is Ok
        &&& r.unwrap().frame@ == frame_of(payload)
        &&& r.unwrap().reopen == (if catches_up(before, global) {
            Some(global)
        } else {
            None
        })
        &&& r.unwrap().seal == (if rolls {
            Some((target - 1) as usize)
        } else {
            None
        })
        &&& after.seq_num == target
        &&& after.max_bytes == before.max_bytes
        &&& after.bytes_written == (if rolls {
            0
        } else {
            counted_bytes(before, len, global)
        })
    }
}

impl Sender {
    /// A producer for the directory whose listing is `names`: it appends to
    /// the highest-numbered queue file, or to file `0` where there is none.
    pub fn new(names: &Vec<String>, max_bytes: usize) -> (s: Sender)
        ensures
            s.bytes_written == 0,
            s.max_bytes == max_bytes,
            has_index(names@) ==> is_latest(names@, s.seq_num),
            !has_index(names@) ==> s.seq_num == 0,
    {
        let seq_num: usize = match latest_index(names) {
            Some(n) => n,
            None => 0,
        };
        Sender { bytes_written: 0, max_bytes, seq_num }
    }

    /// Another producer for the same channel, whose directory now lists
    /// `names`: a new producer with this one's limit, which has counted no
    /// byte yet and appends to the highest-numbered queue file, or to file
    /// `0` where there is none. This producer stays as it is.
    pub fn clone(&self, names: &Vec<String>) -> (c: Sender)
        ensures
            c.bytes_written == 0,
            c.max_bytes == self.max_bytes,
            has_index(names@) ==> is_latest(names@, c.seq_num),
            !has_index(names@) ==> c.seq_num == 0,
    {
        Sender::new(names, self.max_bytes)
    }

    /// Takes in one serialized event and says what to do with the files.
    ///
    /// `global_seq_num` is the shared index as the caller has just read it.
    /// The producer first catches up with it, then seals its file if the
    /// payload bytes counted against it have passed `max_bytes`, and the
    /// record goes to the file it holds after that. The count starts again
    /// at zero with every change of file.
    ///
    /// Fails, and changes nothing, when the payload cannot be framed or a
    /// file would have to be sealed with no index left for the next.
    pub fn send(&mut self, payload: &[u8], global_seq_num: usize) -> (r: Result<
        SendPlan,
        SendError,
    >)
        ensures
            r == Err::<SendPlan, SendError>(SendError::TooLarge) <==> payload@.len() > u32::MAX,
            r == Err::<SendPlan, SendError>(SendError::Exhausted) <==> payload@.len() <= u32::MAX
                && target_index(*old(self), payload@.len(), global_seq_num) > usize::MAX,
            sent_as(*old(self), *final(self), payload@, global_seq_num, r),
    {
        let frame = match encode_frame(payload) {
            Some(f) => f,
            None => {
                return Err(SendError::TooLarge);
            },
        };
        let caught: bool = self.seq_num < global_seq_num;
        let at: usize = if caught {
            global_seq_num
        } else {
            self.seq_num
        };
        let counted: Option<usize> = if caught {
            Some(0)
        } else {
            self.bytes_written.checked_add(payload.len())
        };
        let roll: bool = match counted {
            Some(c) => c > self.max_bytes,
            None => true,
        };
        if roll {
            if at == usize::MAX {
                return Err(SendError::Exhausted);
            }
            self.seq_num = at + 1;
            self.bytes_written = 0;
            Ok(
                SendPlan {
                    reopen: if caught {
                        Some(global_seq_num)
                    } else {
                        None
                    },
                    seal: Some(at),
                    frame,
                },
            )
        } else {
            self.seq_num = at;
            self.bytes_written = counted.unwrap();
            Ok(
                SendPlan {
                    reopen: if caught {
                        Some(global_seq_num)
                    } else {
                        None
                    },
                    seal: None,
                    frame,
                },
            )
        }
    }
}

/// Why the consumer gives up. Each of these means that the queue can no
/// longer be trusted; none is retried.
#[derive(Debug, Clone, Copy, PartialEq, Eq)]
pub enum RecvError {
    /// A prefix announces more than `MAX_PAYLOAD` bytes.
    TooLarge,
    /// The file ended, or handed out the wrong number of bytes, in the
    /// middle of a record.
    Truncated,
    /// The file could not be read.
    Io,
    /// The file index cannot grow any further.
    Exhausted,
    /// The caller reported something that it was not asked to read.
    OutOfStep,
}

/// What the consumer's caller found when it did as it was told.
#[derive(Debug, Clone, PartialEq, Eq)]
pub enum ReadEvent {
    /// Four bytes, read where a record starts.
    Prefix([u8; 4]),
    /// The bytes read after a `ReadPayload`.
    Payload(Vec<u8>),
    /// The file ended before the bytes asked for were there; `read_only`
    /// says whether the file has been sealed.
    EndOfFile { read_only: bool },
    /// Any other failure to read.
    Failed,
}

/// What the consumer's caller has to do next.
#[derive(Debug, Clone, PartialEq, Eq)]
pub enum RecvAction {
    /// Read exactly this many bytes and report them as `Payload`.
    ReadPayload(usize),
    /// Hand this payload on as the next event, then read four bytes again.
    Deliver(Vec<u8>),
    /// Unlink the file of index `unlink`, open the file of index `open`,
    /// trying again until it is there, and read four bytes.
    Advance { unlink: usize, open: usize },
    /// Sleep this many milliseconds, then read four bytes again.
    Wait(u64),
    /// Stop the consumer.
    Abort(RecvError),
}

/// What the consumer's caller found, as plain values.
pub enum Seen {
    Prefix(Seq<u8>),
    Payload(Seq<u8>),
    EndOfFile { read_only: bool },
    Failed,
}

/// What the consumer's caller has to do next, as plain values.
pub enum Act {
    ReadPayload(usize),
    Deliver(Seq<u8>),
    Advance { unlink: usize, open: usize },
    Wait(u64),
    Abort(RecvError),
}

impl View for ReadEvent {
    type V = Seen;

    open spec fn view(&self) -> Seen {
        match self {
            ReadEvent::Prefix(b) => Seen::Prefix(b@),
            ReadEvent::Payload(p) => Seen::Payload(p@),
            ReadEvent::EndOfFile { read_only } => Seen::EndOfFile { read_only: *read_only },
            ReadEvent::Failed => Seen::Failed,
        }
    }
}

impl View for RecvAction {
    type V = Act;

    open spec fn view(&self) -> Act {
        match self {
            RecvAction::ReadPayload(n) => Act::ReadPayload(*n),
            RecvAction::Deliver(p) => Act::Deliver(p@),
            RecvAction::Advance { unlink, open } => Act::Advance { unlink: *unlink, open: *open },
            RecvAction::Wait(ms) => Act::Wait(*ms),
            RecvAction::Abort(e) => Act::Abort(*e),
        }
    }
}

/// The consumer's place in the queue: the index of the file it reads, and
/// the number of payload bytes it has asked for, if it is inside a record.
#[derive(Debug, PartialEq, Eq)]
pub struct Receiver {
    /// Index of the file that the consumer reads.
    pub seq_num: usize,
    /// The payload length that was announced and not yet read.
    pub pending: Option<usize>,
}

/// One turn of the consumer: the place it moves to and what its caller has
/// to do, given the place it stands at and what the caller found.
///
/// Where a record starts, four bytes announce the payload's length, which
/// is refused above `MAX_PAYLOAD`; the end of a sealed file moves the
/// consumer to the next file and has the old one unlinked; the end of a file
/// that is still written to means waiting. Inside a record only the
/// announced number of bytes is accepted. After `Abort` the consumer stands
/// where it stood.
pub open spec fn step_of(r: Receiver, seen: Seen) -> (Receiver, Act) {
    match (r.pending, seen) {
        (None, Seen::Prefix(b)) => if length_of(b) <= MAX_PAYLOAD {
            (
                Receiver { pending: Some(length_of(b) as usize), ..r },
                Act::ReadPayload(length_of(b) as usize),
            )
        } else {
            (r, Act::Abort(RecvError::TooLarge))
        },
        (None, Seen::EndOfFile { read_only }) => if !read_only {
            (r, Act::Wait(EOF_WAIT_MILLIS))
        } else if r.seq_num < usize::MAX {
            (
                Receiver { seq_num: (r.seq_num + 1) as usize, pending: None },
                Act::Advance { unlink: r.seq_num, open: (r.seq_num + 1) as usize },
            )
        } else {
            (r, Act::Abort(RecvError::Exhausted))
        },
        (Some(n), Seen::Payload(p)) => if p.len() == n {
            (Receiver { pending: None, ..r }, Act::Deliver(p))
        } else {
            (r, Act::Abort(RecvError::Truncated))
        },
        (Some(_), Seen::EndOfFile { .. }) => (r, Act::Abort(RecvError::Truncated)),
        (_, Seen::Failed) => (r, Act::Abort(RecvError::Io)),
        (None, Seen::Payload(_)) | (Some(_), Seen::Prefix(_)) => (
            r,
            Act::Abort(RecvError::OutOfStep),
        ),
    }
}

impl Receiver {
    /// A consumer for the directory whose listing is `names`. It starts at
    /// the highest-numbered queue file, whose end its caller seeks: what
    /// lies in the queue from an earlier run is not delivered. There is no
    /// consumer for a directory without a queue file: `latest_index` tells
    /// whether there is one.
    pub fn new(names: &Vec<String>) -> (r: Receiver)
        requires
            has_index(names@),
        ensures
            r.pending is None,
            is_latest(names@, r.seq_num),
    {
        match latest_index(names) {
            Some(n) => Receiver { seq_num: n, pending: None },
            None => Receiver { seq_num: 0, pending: None },
        }
    }

    /// One turn of the consumer: takes what the caller found and says what
    /// to do next, as `step_of` has it. A payload that is delivered is the
    /// very one that was handed in.
    pub fn step(&mut self, event: ReadEvent) -> (action: RecvAction)
        ensures
            (*final(self), action@) == step_of(*old(self), event@),
            action is Deliver ==> event is Payload && action == RecvAction::Deliver(
                event->Payload_0,
            ),
    {
        match event {
            ReadEvent::Failed => RecvAction::Abort(RecvError::Io),
            ReadEvent::Prefix(b) => {
                if self.pending.is_some() {
                    return RecvAction::Abort(RecvError::OutOfStep);
                }
                let len: u32 = u8tou32abe(b.as_slice());
                if len as u64 > MAX_PAYLOAD as u64 {
                    return RecvAction::Abort(RecvError::TooLarge);
                }
                let n: usize = len as usize;
                self.pending = Some(n);
                RecvAction::ReadPayload(n)
            },
            ReadEvent::Payload(p) => {
                match self.pending {
                    None => RecvAction::Abort(RecvError::OutOfStep),
                    Some(n) => {
                        if p.len() != n {
                            return RecvAction::Abort(RecvError::Truncated);
                        }
                        self.pending = None;
                        RecvAction::Deliver(p)
                    },
                }
            },
            ReadEvent::EndOfFile { read_only } => {
                if self.pending.is_some() {
                    return RecvAction::Abort(RecvError::Truncated);
                }
                if !read_only {
                    return RecvAction::Wait(EOF_WAIT_MILLIS);
                }
                if self.seq_num == usize::MAX {
                    return RecvAction::Abort(RecvError::Exhausted);
                }
                let old_seq: usize = self.seq_num;
                self.seq_num = old_seq + 1;
                RecvAction::Advance { unlink: old_seq, open: old_seq + 1 }
            },
        }
    }
}

/// The two ends of the channel whose directory lists `names`, the
/// directory having been made if it was not there. The producer seals a
/// file after `DEFAULT_MAX_BYTES` payload bytes; both ends start at the
/// highest-numbered queue file, or at file `0`, which the producer's caller
/// creates.
pub fn channel(names: &Vec<String>) -> (ends: (Sender, Receiver))
    ensures
        ends.0.bytes_written == 0,
        ends.0.max_bytes == DEFAULT_MAX_BYTES,
        has_index(names@) ==> is_latest(names@, ends.0.seq_num),
        !has_index(names@) ==> ends.0.seq_num == 0,
        ends.1.seq_num == ends.0.seq_num,
        ends.1.pending is None,
{
    let sender = Sender::new(names, DEFAULT_MAX_BYTES);
    let receiver = Receiver { seq_num: sender.seq_num, pending: None };
    (sender, receiver)
}

} // verus!
