//! A model of the queue directory under a single producer, and the proof
//! that the consumer is handed what was sent, in the order of sending.
//!
//! The model keeps what the file system would hold: one byte string per
//! file, file `0` first. The last file is the active one; every file before
//! it has been sealed.

use crate::mpsc::{
    all_frameable, counted_bytes, frame_of, frames_of, lemma_frames_concat, lemma_frames_push,
    lemma_prefix_round_trip, lemma_records_of_frames, length_of, records_of, rolls_over, sent_as,
    step_of, prefix_of, target_index, Act, Receiver, Seen, SendError, SendPlan, Sender,
    MAX_PAYLOAD,
};
use vstd::prelude::*;

verus! {

/// The files of one channel, by index.
pub struct Queue {
    pub files: Seq<Seq<u8>>,
}

/// A channel that has just been made: file `0`, empty.
pub open spec fn fresh() -> Queue {
    Queue { files: seq![Seq::empty()] }
}

/// The producer of a channel that has just been made.
pub open spec fn fresh_sender(max_bytes: usize) -> Sender {
    Sender { bytes_written: 0, max_bytes, seq_num: 0 }
}

/// The files after the only producer, in state `s`, has carried out the
/// plan of `Sender::send` for `payload`. With a single producer the shared
/// index is the producer's own.
pub open spec fn sent(q: Queue, s: Sender, payload: Seq<u8>) -> Queue {
    if rolls_over(s, payload.len(), s.seq_num) {
        Queue { files: q.files.push(frame_of(payload)) }
    } else {
        Queue {
            files: q.files.update(q.files.len() - 1, q.files.last() + frame_of(payload)),
        }
    }
}

/// The producer's state after that call of `Sender::send`.
pub open spec fn sender_after(s: Sender, payload: Seq<u8>) -> Sender {
    Sender {
        bytes_written: if rolls_over(s, payload.len(), s.seq_num) {
            0
        } else {
            counted_bytes(s, payload.len(), s.seq_num) as usize
        },
        max_bytes: s.max_bytes,
        seq_num: target_index(s, payload.len(), s.seq_num) as usize,
    }
}

/// The files and the producer after `payloads` have been sent, one after
/// the other, into a channel that had just been made.
pub open spec fn produced(max_bytes: usize, payloads: Seq<Seq<u8>>) -> (Queue, Sender)
    decreases payloads.len(),
{
    if payloads.len() == 0 {
        (fresh(), fresh_sender(max_bytes))
    } else {
        let (q, s) = produced(max_bytes, payloads.drop_last());
        (sent(q, s, payloads.last()), sender_after(s, payloads.last()))
    }
}

/// The model follows `Sender::send`: where the only producer's call
/// succeeds, the producer is left as `sender_after` has it, the plan asks
/// for no catching up, the file is sealed exactly where `sent` opens a new
/// one, and the bytes to append are the payload's frame.
pub proof fn lemma_model_follows_send(
    s: Sender,
    after: Sender,
    payload: Seq<u8>,
    r: Result<SendPlan, SendError>,
)
    requires
        sent_as(s, after, payload, s.seq_num, r),
        r is Ok,
    ensures
        after == sender_after(s, payload),
        r.unwrap().reopen is None,
        r.unwrap().seal is Some <==> rolls_over(s, payload.len(), s.seq_num),
        r.unwrap().seal is Some ==> r.unwrap().seal == Some(s.seq_num),
        r.unwrap().frame@ == frame_of(payload),
{
}

/// A send never touches a sealed file and never takes a file away: every
/// file but the last stays as it is, the last is only ever appended to, and
/// a new file comes behind all others.
pub proof fn lemma_sealed_files_stay(q: Queue, s: Sender, payload: Seq<u8>)
    requires
        q.files.len() >= 1,
    ensures
        sent(q, s, payload).files.len() >= q.files.len(),
        forall|i: int| 0 <= i < q.files.len() - 1 ==> sent(q, s, payload).files[i] == q.files[i],
        sent(q, s, payload).files[q.files.len() - 1].len() >= q.files.last().len(),
        sent(q, s, payload).files[q.files.len() - 1].take(q.files.last().len() as int)
            == q.files.last(),
{
    let after = sent(q, s, payload);
    let last = q.files.len() - 1;
    assert(after.files[last].take(q.files.last().len() as int) =~= q.files.last());
}

/// What a consumer that starts at the head of file `from` is handed once
/// it has read all there is: the records of that file and, the file being
/// sealed, those of the files after it, up to the end of the active file.
pub open spec fn drained(q: Queue, from: nat) -> Seq<Seq<u8>>
    decreases q.files.len() - from,
{
    if from >= q.files.len() {
        Seq::empty()
    } else {
        records_of(q.files[from as int]) + drained(q, from + 1)
    }
}

/// The payloads that went to each file, file `0` first.
pub open spec fn logs(max_bytes: usize, payloads: Seq<Seq<u8>>) -> Seq<Seq<Seq<u8>>>
    decreases payloads.len(),
{
    if payloads.len() == 0 {
        seq![Seq::empty()]
    } else {
        let l = logs(max_bytes, payloads.drop_last());
        let s = produced(max_bytes, payloads.drop_last()).1;
        if rolls_over(s, payloads.last().len(), s.seq_num) {
            l.push(seq![payloads.last()])
        } else {
            l.update(l.len() - 1, l.last().push(payloads.last()))
        }
    }
}

/// The payloads of the files from index `from` on, joined in order.
pub open spec fn joined(l: Seq<Seq<Seq<u8>>>, from: nat) -> Seq<Seq<u8>>
    decreases l.len() - from,
{
    if from >= l.len() {
        Seq::empty()
    } else {
        l[from as int] + joined(l, from + 1)
    }
}

/// A new file adds its payloads behind those of the files before it.
proof fn lemma_joined_push(l: Seq<Seq<Seq<u8>>>, x: Seq<Seq<u8>>, from: nat)
    requires
        from <= l.len(),
    ensures
        joined(l.push(x), from) == joined(l, from) + x,
    decreases l.len() - from,
{
    let m = l.push(x);
    if from == l.len() {
        assert(joined(m, from + 1) =~= Seq::<Seq<u8>>::empty());
        assert(joined(l, from) =~= Seq::<Seq<u8>>::empty());
        assert(joined(m, from) =~= m[from as int] + joined(m, from + 1));
        assert(joined(m, from) =~= joined(l, from) + x);
    } else {
        lemma_joined_push(l, x, from + 1);
        assert(m[from as int] == l[from as int]);
        assert(joined(m, from) =~= joined(l, from) + x);
    }
}

/// A payload appended to the last file comes last of all.
proof fn lemma_joined_extend_last(l: Seq<Seq<Seq<u8>>>, p: Seq<u8>, from: nat)
    requires
        from < l.len(),
    ensures
        joined(l.update(l.len() - 1, l.last().push(p)), from) == joined(l, from).push(p),
    decreases l.len() - from,
{
    let m = l.update(l.len() - 1, l.last().push(p));
    if from == l.len() - 1 {
        assert(joined(m, from + 1) =~= Seq::<Seq<u8>>::empty());
        assert(joined(l, from + 1) =~= Seq::<Seq<u8>>::empty());
        assert(joined(m, from) =~= joined(l, from).push(p));
    } else {
        lemma_joined_extend_last(l, p, from + 1);
        assert(m[from as int] == l[from as int]);
        assert(joined(m, from) =~= joined(l, from).push(p));
    }
}

/// Under a single producer each file holds the frames of the payloads that
/// went to it and nothing else, the producer stands at the last file, and
/// the files' payloads, joined in order of index, are what was sent.
pub proof fn lemma_produced_shape(max_bytes: usize, payloads: Seq<Seq<u8>>)
    requires
        all_frameable(payloads),
        payloads.len() <= usize::MAX,
    ensures
        ({
            let (q, s) = produced(max_bytes, payloads);
            let l = logs(max_bytes, payloads);
            &&& q.files.len() == l.len()
            &&& 1 <= q.files.len() <= payloads.len() + 1
            &&& s.seq_num == q.files.len() - 1
            &&& s.max_bytes == max_bytes
            &&& forall|i: int|
                0 <= i < l.len() ==> all_frameable(#[trigger] l[i]) && q.files[i] == frames_of(l[i])
            &&& joined(l, 0) == payloads
        }),
    decreases payloads.len(),
{
    if payloads.len() == 0 {
        let l = logs(max_bytes, payloads);
        assert(joined(l, 1) =~= Seq::<Seq<u8>>::empty());
        assert(joined(l, 0) =~= payloads);
        assert(frames_of(l[0]) =~= Seq::<u8>::empty());
    } else {
        let before = payloads.drop_last();
        let p = payloads.last();
        assert(all_frameable(before)) by {
            assert forall|i: int| 0 <= i < before.len() implies (#[trigger] before[i]).len()
                <= u32::MAX by {
                assert(before[i] == payloads[i]);
            }
        }
        lemma_produced_shape(max_bytes, before);
        let (q0, s0) = produced(max_bytes, before);
        let l0 = logs(max_bytes, before);
        let (q, s) = produced(max_bytes, payloads);
        let l = logs(max_bytes, payloads);
        assert(before.push(p) =~= payloads);
        if rolls_over(s0, p.len(), s0.seq_num) {
            lemma_joined_push(l0, seq![p], 0);
            assert(joined(l, 0) =~= payloads);
            assert(frames_of(seq![p]) =~= frame_of(p)) by {
                lemma_frames_push(Seq::empty(), p);
                assert(Seq::<Seq<u8>>::empty().push(p) =~= seq![p]);
                assert(frames_of(Seq::<Seq<u8>>::empty()) =~= Seq::<u8>::empty());
            }
            assert forall|i: int| 0 <= i < l.len() implies all_frameable(#[trigger] l[i])
                && q.files[i] == frames_of(l[i]) by {
                if i < l0.len() {
                    assert(l[i] == l0[i]);
                    assert(q.files[i] == q0.files[i]);
                }
            }
        } else {
            lemma_joined_extend_last(l0, p, 0);
            assert(joined(l, 0) =~= payloads);
            lemma_frames_push(l0.last(), p);
            assert forall|i: int| 0 <= i < l.len() implies all_frameable(#[trigger] l[i])
                && q.files[i] == frames_of(l[i]) by {
                if i < l0.len() - 1 {
                    assert(l[i] == l0[i]);
                    assert(q.files[i] == q0.files[i]);
                } else {
                    assert(all_frameable(l0[i]));
                    assert forall|j: int| 0 <= j < l[i].len() implies (#[trigger] l[i][j]).len()
                        <= u32::MAX by {
                        if j < l0[i].len() {
                            assert(l[i][j] == l0[i][j]);
                        }
                    }
                }
            }
        }
    }
}

/// Where every file holds the frames of its payloads, what is drained is
/// those payloads joined.
proof fn lemma_drained_is_joined(q: Queue, l: Seq<Seq<Seq<u8>>>, from: nat)
    requires
        q.files.len() == l.len(),
        forall|i: int|
            0 <= i < l.len() ==> all_frameable(#[trigger] l[i]) && q.files[i] == frames_of(l[i]),
    ensures
        drained(q, from) == joined(l, from),
    decreases l.len() - from,
{
    if from < l.len() {
        lemma_drained_is_joined(q, l, from + 1);
        assert(all_frameable(l[from as int]));
        lemma_records_of_frames(l[from as int]);
    }
}

/// With a single producer, a consumer that reads the channel from its
/// start is handed exactly the payloads that were sent, in the order in
/// which they were sent.
pub proof fn lemma_single_producer_fifo(max_bytes: usize, payloads: Seq<Seq<u8>>)
    requires
        all_frameable(payloads),
        payloads.len() <= usize::MAX,
    ensures
        drained(produced(max_bytes, payloads).0, 0) == payloads,
{
    lemma_produced_shape(max_bytes, payloads);
    lemma_drained_is_joined(produced(max_bytes, payloads).0, logs(max_bytes, payloads), 0);
}

/// The same holds at every moment of the sending: a consumer that has read
/// all there is after the first `k` payloads were sent has been handed
/// exactly those `k`, in order. What it is handed only ever grows at the
/// end.
pub proof fn lemma_fifo_at_every_point(max_bytes: usize, payloads: Seq<Seq<u8>>, k: int)
    requires
        all_frameable(payloads),
        payloads.len() <= usize::MAX,
        0 <= k <= payloads.len(),
    ensures
        drained(produced(max_bytes, payloads.take(k)).0, 0) == payloads.take(k),
{
    let first = payloads.take(k);
    assert(all_frameable(first)) by {
        assert forall|i: int| 0 <= i < first.len() implies (#[trigger] first[i]).len()
            <= u32::MAX by {
            assert(first[i] == payloads[i]);
        }
    }
    lemma_single_producer_fifo(max_bytes, first);
}

/// The consumer together with its place in the file that it reads.
pub struct Cursor {
    pub receiver: Receiver,
    pub pos: nat,
}

/// The consumer at the head of file `0`.
pub open spec fn start() -> Cursor {
    Cursor { receiver: Receiver { seq_num: 0, pending: None }, pos: 0 }
}

/// What the consumer's caller finds when it reads at the cursor: the bytes
/// asked for where the file holds that many from there on, else the end of
/// the file, which is sealed if it is not the last.
pub open spec fn seen_at(q: Queue, c: Cursor) -> Seen {
    let file = q.files[c.receiver.seq_num as int];
    let want: nat = match c.receiver.pending {
        None => 4,
        Some(n) => n as nat,
    };
    if c.pos + want <= file.len() {
        let bytes = file.subrange(c.pos as int, (c.pos + want) as int);
        if c.receiver.pending is None {
            Seen::Prefix(bytes)
        } else {
            Seen::Payload(bytes)
        }
    } else {
        Seen::EndOfFile { read_only: c.receiver.seq_num + 1 < q.files.len() }
    }
}

/// One turn of the consumer on the files: its caller reads, `step_of`
/// decides, and the place in the file moves behind what was read, to the
/// head of the next file, or to the end of the file that ran out.
pub open spec fn turn(q: Queue, c: Cursor) -> (Cursor, Act) {
    let seen = seen_at(q, c);
    let (receiver, act) = step_of(c.receiver, seen);
    let pos: nat = match act {
        Act::Advance { .. } => 0,
        _ => match seen {
            Seen::Prefix(b) => c.pos + 4,
            Seen::Payload(p) => c.pos + p.len(),
            _ => q.files[c.receiver.seq_num as int].len(),
        },
    };
    (Cursor { receiver, pos }, act)
}

/// The payloads that the consumer delivers within `fuel` turns, up to the
/// turn on which it has to wait or gives up.
pub open spec fn consumed(q: Queue, c: Cursor, fuel: nat) -> Seq<Seq<u8>>
    decreases fuel,
{
    if fuel == 0 {
        Seq::empty()
    } else {
        let (next, act) = turn(q, c);
        match act {
            Act::Deliver(p) => seq![p] + consumed(q, next, (fuel - 1) as nat),
            Act::ReadPayload(_) | Act::Advance { .. } => consumed(q, next, (fuel - 1) as nat),
            Act::Wait(_) | Act::Abort(_) => Seq::empty(),
        }
    }
}

/// Whether every payload is one that the consumer accepts.
pub open spec fn all_acceptable(payloads: Seq<Seq<u8>>) -> bool {
    forall|i: int| 0 <= i < payloads.len() ==> (#[trigger] payloads[i]).len() <= MAX_PAYLOAD
}

/// The turns that the consumer needs for the files from index `from` on:
/// two for every record and one for the end of every file.
pub open spec fn turns_needed(l: Seq<Seq<Seq<u8>>>, from: nat) -> nat
    decreases l.len() - from,
{
    if from >= l.len() {
        0
    } else {
        2 * l[from as int].len() + 1 + turns_needed(l, from + 1)
    }
}

/// Whether the files hold the frames of the payloads in `l`, file by file,
/// and nothing else.
pub open spec fn holds_frames(q: Queue, l: Seq<Seq<Seq<u8>>>) -> bool {
    &&& q.files.len() == l.len()
    &&& 1 <= l.len() <= usize::MAX
    &&& forall|i: int|
        0 <= i < l.len() ==> all_acceptable(#[trigger] l[i]) && q.files[i] == frames_of(l[i])
}

/// The bytes of a file up to and behind one of its records.
proof fn lemma_take_one_more(l: Seq<Seq<u8>>, k: int)
    requires
        0 <= k < l.len(),
    ensures
        frames_of(l.take(k + 1)) == frames_of(l.take(k)) + frame_of(l[k]),
        frames_of(l) == frames_of(l.take(k + 1)) + frames_of(l.skip(k + 1)),
        frames_of(l.take(k + 1)).len() == frames_of(l.take(k)).len() + 4 + l[k].len(),
{
    lemma_frames_push(l.take(k), l[k]);
    assert(l.take(k).push(l[k]) =~= l.take(k + 1));
    lemma_frames_concat(l.take(k + 1), l.skip(k + 1));
    assert(l.take(k + 1) + l.skip(k + 1) =~= l);
    lemma_prefix_round_trip(l[k].len() as u32);
}

/// At the head of a record the consumer takes two turns to deliver its
/// payload, and then stands behind the record.
proof fn lemma_one_record(q: Queue, c: Cursor, x: Seq<u8>, fuel: nat)
    requires
        c.receiver.pending is None,
        c.receiver.seq_num < q.files.len(),
        x.len() <= MAX_PAYLOAD,
        c.pos + 4 + x.len() <= q.files[c.receiver.seq_num as int].len(),
        q.files[c.receiver.seq_num as int].subrange(c.pos as int, (c.pos + 4 + x.len()) as int)
            == frame_of(x),
        fuel >= 2,
    ensures
        consumed(q, c, fuel) == seq![x] + consumed(
            q,
            Cursor { receiver: c.receiver, pos: c.pos + 4 + x.len() },
            (fuel - 2) as nat,
        ),
{
    let file = q.files[c.receiver.seq_num as int];
    let n = x.len();
    lemma_prefix_round_trip(n as u32);
    let framed = file.subrange(c.pos as int, (c.pos + 4 + n) as int);
    let head = file.subrange(c.pos as int, (c.pos + 4) as int);
    assert(head =~= prefix_of(n as u32)) by {
        assert forall|j: int| 0 <= j < 4 implies head[j] == prefix_of(n as u32)[j] by {
            assert(head[j] == framed[j]);
            assert(frame_of(x)[j] == prefix_of(n as u32)[j]);
        }
    }
    assert(length_of(head) == n);
    assert(seen_at(q, c) == Seen::Prefix(head));
    let (c1, a1) = turn(q, c);
    assert(a1 == Act::ReadPayload(n as usize));
    assert(c1 == Cursor { receiver: Receiver { pending: Some(n as usize), ..c.receiver }, pos: c.pos + 4 });
    let body = file.subrange((c.pos + 4) as int, (c.pos + 4 + n) as int);
    assert(body =~= x) by {
        assert forall|j: int| 0 <= j < n implies body[j] == x[j] by {
            assert(body[j] == framed[j + 4]);
            assert(frame_of(x)[j + 4] == x[j]);
        }
    }
    assert(seen_at(q, c1) == Seen::Payload(body));
    let (c2, a2) = turn(q, c1);
    assert(a2 == Act::Deliver(x));
    assert(c2 == Cursor { receiver: c.receiver, pos: c.pos + 4 + n });
    assert(consumed(q, c, fuel) == consumed(q, c1, (fuel - 1) as nat));
    assert(consumed(q, c1, (fuel - 1) as nat) == seq![x] + consumed(q, c2, (fuel - 2) as nat));
}

/// From the head of the record at place `k` of a file the consumer
/// delivers the rest of the file's payloads and then stands at its end.
proof fn lemma_rest_of_file(q: Queue, l: Seq<Seq<Seq<u8>>>, i: nat, k: int, fuel: nat)
    requires
        holds_frames(q, l),
        i < l.len(),
        0 <= k <= l[i as int].len(),
        fuel >= 2 * (l[i as int].len() - k),
    ensures
        consumed(
            q,
            Cursor {
                receiver: Receiver { seq_num: i as usize, pending: None },
                pos: frames_of(l[i as int].take(k)).len(),
            },
            fuel,
        ) == l[i as int].skip(k) + consumed(
            q,
            Cursor {
                receiver: Receiver { seq_num: i as usize, pending: None },
                pos: q.files[i as int].len(),
            },
            (fuel - 2 * (l[i as int].len() - k)) as nat,
        ),
    decreases l[i as int].len() - k,
{
    let li = l[i as int];
    let file = q.files[i as int];
    let r = Receiver { seq_num: i as usize, pending: None };
    assert(all_acceptable(li) && file == frames_of(li));
    if k == li.len() {
        assert(li.take(k) =~= li);
        assert(li.skip(k) =~= Seq::<Seq<u8>>::empty());
        let c = Cursor { receiver: r, pos: file.len() };
        assert(li.skip(k) + consumed(q, c, fuel) =~= consumed(q, c, fuel));
    } else {
        let x = li[k];
        lemma_take_one_more(li, k);
        let pos = frames_of(li.take(k)).len();
        let c = Cursor { receiver: r, pos };
        assert(file.subrange(pos as int, (pos + 4 + x.len()) as int) =~= frame_of(x)) by {
            assert(file == frames_of(li.take(k)) + frame_of(x) + frames_of(li.skip(k + 1)));
        }
        lemma_one_record(q, c, x, fuel);
        lemma_rest_of_file(q, l, i, k + 1, (fuel - 2) as nat);
        assert(li.skip(k) =~= seq![x] + li.skip(k + 1));
    }
}

/// From the head of file `i` the consumer delivers the payloads of that
/// file and of every file after it, and then waits at the end of the last.
proof fn lemma_rest_of_files(q: Queue, l: Seq<Seq<Seq<u8>>>, i: nat, fuel: nat)
    requires
        holds_frames(q, l),
        i < l.len(),
        fuel >= turns_needed(l, i),
    ensures
        consumed(q, Cursor { receiver: Receiver { seq_num: i as usize, pending: None }, pos: 0 }, fuel)
            == joined(l, i),
    decreases l.len() - i,
{
    let li = l[i as int];
    let file = q.files[i as int];
    let r = Receiver { seq_num: i as usize, pending: None };
    assert(li.take(0) =~= Seq::<Seq<u8>>::empty());
    assert(frames_of(li.take(0)).len() == 0);
    assert(li.skip(0) =~= li);
    lemma_rest_of_file(q, l, i, 0, fuel);
    let left = (fuel - 2 * li.len()) as nat;
    let end = Cursor { receiver: r, pos: file.len() };
    assert(left >= 1);
    assert(seen_at(q, end) == Seen::EndOfFile { read_only: i + 1 < l.len() });
    let (next, act) = turn(q, end);
    if i + 1 < l.len() {
        assert(act == Act::Advance { unlink: i as usize, open: (i + 1) as usize });
        assert(next == Cursor {
            receiver: Receiver { seq_num: (i + 1) as usize, pending: None },
            pos: 0,
        });
        lemma_rest_of_files(q, l, i + 1, (left - 1) as nat);
        assert(consumed(q, end, left) == joined(l, i + 1));
    } else {
        assert(act == Act::Wait(crate::mpsc::EOF_WAIT_MILLIS));
        assert(consumed(q, end, left) =~= Seq::<Seq<u8>>::empty());
        assert(joined(l, i + 1) =~= Seq::<Seq<u8>>::empty());
    }
}

/// The turns needed, counted out: two for every payload and one for every
/// file.
proof fn lemma_turns_bound(l: Seq<Seq<Seq<u8>>>, from: nat)
    requires
        from <= l.len(),
    ensures
        turns_needed(l, from) == 2 * joined(l, from).len() + (l.len() - from),
    decreases l.len() - from,
{
    if from < l.len() {
        lemma_turns_bound(l, from + 1);
    }
}

/// With a single producer, the consumer, turn by turn as `Receiver::step`
/// decides, delivers exactly the payloads that were sent, in the order in
/// which they were sent, and then waits: within any number of turns from
/// three for every payload and one more. The payloads are such as the
/// consumer accepts.
pub proof fn lemma_consumer_delivers_what_was_sent(
    max_bytes: usize,
    payloads: Seq<Seq<u8>>,
    fuel: nat,
)
    requires
        all_acceptable(payloads),
        payloads.len() < usize::MAX,
        fuel >= 3 * payloads.len() + 1,
    ensures
        consumed(produced(max_bytes, payloads).0, start(), fuel) == payloads,
{
    assert(all_frameable(payloads)) by {
        assert forall|i: int| 0 <= i < payloads.len() implies (#[trigger] payloads[i]).len()
            <= u32::MAX by {
            assert(payloads[i].len() <= MAX_PAYLOAD);
        }
    }
    lemma_produced_shape(max_bytes, payloads);
    let q = produced(max_bytes, payloads).0;
    let l = logs(max_bytes, payloads);
    lemma_logs_acceptable(max_bytes, payloads);
    lemma_turns_bound(l, 0);
    lemma_rest_of_files(q, l, 0, fuel);
}

/// Every payload that went to a file is one of those that were sent, and
/// so one that the consumer accepts.
proof fn lemma_logs_acceptable(max_bytes: usize, payloads: Seq<Seq<u8>>)
    requires
        all_acceptable(payloads),
    ensures
        forall|i: int|
            0 <= i < logs(max_bytes, payloads).len() ==> all_acceptable(
                #[trigger] logs(max_bytes, payloads)[i],
            ),
    decreases payloads.len(),
{
    let l = logs(max_bytes, payloads);
    if payloads.len() == 0 {
        assert forall|i: int| 0 <= i < l.len() implies all_acceptable(#[trigger] l[i]) by {}
    } else {
        let before = payloads.drop_last();
        assert(all_acceptable(before)) by {
            assert forall|i: int| 0 <= i < before.len() implies (#[trigger] before[i]).len()
                <= MAX_PAYLOAD by {
                assert(before[i] == payloads[i]);
            }
        }
        lemma_logs_acceptable(max_bytes, before);
        let l0 = logs(max_bytes, before);
        let p = payloads.last();
        assert(p.len() <= MAX_PAYLOAD);
        let s0 = produced(max_bytes, before).1;
        let rolls = rolls_over(s0, p.len(), s0.seq_num);
        assert(l0.len() >= 1) by {
            lemma_logs_len(max_bytes, before);
        }
        assert forall|i: int| 0 <= i < l.len() implies all_acceptable(#[trigger] l[i]) by {
            if rolls {
                if i < l0.len() {
                    assert(l[i] == l0[i]);
                } else {
                    assert(l[i] == seq![p]);
                    assert forall|j: int| 0 <= j < l[i].len() implies (#[trigger] l[i][j]).len()
                        <= MAX_PAYLOAD by {
                        assert(l[i][j] == p);
                    }
                }
            } else {
                if i < l0.len() - 1 {
                    assert(l[i] == l0[i]);
                } else {
                    assert(l[i] == l0.last().push(p));
                    assert(all_acceptable(l0[l0.len() - 1]));
                    assert forall|j: int| 0 <= j < l[i].len() implies (#[trigger] l[i][j]).len()
                        <= MAX_PAYLOAD by {
                        if j < l0.last().len() {
                            assert(l[i][j] == l0.last()[j]);
                        } else {
                            assert(l[i][j] == p);
                        }
                    }
                }
            }
        }
    }
}

/// There is always a file.
proof fn lemma_logs_len(max_bytes: usize, payloads: Seq<Seq<u8>>)
    ensures
        logs(max_bytes, payloads).len() >= 1,
    decreases payloads.len(),
{
    if payloads.len() > 0 {
        lemma_logs_len(max_bytes, payloads.drop_last());
    }
}

} // verus!
