//! A string that is cheap to hand around, and the fan-out of one record to
//! several channels.

use crate::bytes::{bytes_lt, order_of, Order};
use crate::mpsc::{sent_as, SendError, SendPlan, Sender};
use std::sync::Arc;
use vstd::prelude::*;
use vstd::std_specs::cmp::PartialEqSpecImpl;
use vstd::utf8::{encode_utf8, encode_utf8_decode_utf8};

verus! {

/// `Arc::clone`: another handle to the same string. Trusted: that the new
/// handle points at the value that the old one points at.
#[verifier::external_body]
fn share(a: &Arc<String>) -> (r: Arc<String>)
    ensures
        r == *a,
{
    a.clone()
}

/// A string behind a shared handle: a copy shares the text until one of
/// the two is set anew.
#[derive(Debug, Hash)]
pub struct CString {
    inner: Arc<String>,
}

impl View for CString {
    type V = Seq<char>;

    closed spec fn view(&self) -> Seq<char> {
        (*self.inner)@
    }
}

impl CString {
    /// A string with the text `s`.
    pub fn from(s: &str) -> (c: CString)
        ensures
            c@ == s@,
    {
        CString { inner: Arc::new(s.to_owned()) }
    }

    /// A string on a text that is shared already.
    pub fn from_shared(s: Arc<String>) -> (c: CString)
        ensures
            c@ == (*s)@,
    {
        CString { inner: s }
    }

    /// Gives the string the text `s`. Copies made before keep the text
    /// they had.
    pub fn set(&mut self, s: &str)
        ensures
            final(self)@ == s@,
    {
        self.inner = Arc::new(s.to_owned());
    }

    /// The text.
    pub fn as_str(&self) -> (s: &str)
        ensures
            s@ == self@,
    {
        (*self.inner).as_str()
    }

    /// The text as a string of its own.
    pub fn to_string(&self) -> (s: String)
        ensures
            s@ == self@,
    {
        (*self.inner).clone()
    }

    /// Whether the text is `s`.
    pub fn eq_str(&self, s: &str) -> (b: bool)
        ensures
            b == (self@ == s@),
    {
        let mine = self.as_str().as_bytes();
        let theirs = s.as_bytes();
        proof {
            encode_utf8_decode_utf8(self@);
            encode_utf8_decode_utf8(s@);
        }
        match order_of(mine, theirs) {
            Order::Equal => true,
            _ => false,
        }
    }

    /// How the text stands to that of `other` in the order of strings: by
    /// the bytes of their UTF-8 form, in dictionary order.
    pub fn order(&self, other: &CString) -> (o: Order)
        ensures
            o == Order::Less <==> bytes_lt(encode_utf8(self@), encode_utf8(other@)),
            o == Order::Equal <==> self@ == other@,
            o == Order::Greater <==> bytes_lt(encode_utf8(other@), encode_utf8(self@)),
    {
        proof {
            encode_utf8_decode_utf8(self@);
            encode_utf8_decode_utf8(other@);
        }
        order_of(self.as_str().as_bytes(), other.as_str().as_bytes())
    }
}

impl Clone for CString {
    fn clone(&self) -> (c: CString)
        ensures
            c@ == self@,
    {
        CString { inner: share(&self.inner) }
    }
}

impl PartialEq for CString {
    fn eq(&self, other: &CString) -> (b: bool) {
        *self.inner == *other.inner
    }
}

impl PartialEqSpecImpl for CString {
    open spec fn obeys_eq_spec() -> bool {
        true
    }

    open spec fn eq_spec(&self, other: &CString) -> bool {
        self@ == other@
    }
}

impl Eq for CString {

}

/// One record on its way to one channel.
#[derive(Debug, PartialEq, Eq)]
pub struct Delivery {
    /// The place of the channel among the channels.
    pub chan: usize,
    /// What that channel's producer said.
    pub outcome: Result<SendPlan, SendError>,
}

/// The channel that is served at turn `turn` of a fan-out to `n` channels:
/// the channels from the second on come first, in order, and the first
/// channel comes last.
pub open spec fn served(turn: int, n: int) -> int {
    if turn + 1 < n {
        turn + 1
    } else {
        0
    }
}

/// Fans one record out to every channel: each channel's producer takes the
/// payload in, and what it said is handed back, in the order in which the
/// channels are to be served. `globals` holds the shared index of each
/// channel as the caller has just read it.
pub fn send(chans: &mut Vec<Sender>, globals: &Vec<usize>, payload: &[u8]) -> (out: Vec<Delivery>)
    requires
        old(chans)@.len() > 0,
        globals@.len() == old(chans)@.len(),
    ensures
        final(chans)@.len() == old(chans)@.len(),
        out@.len() == old(chans)@.len(),
        forall|turn: int|
            0 <= turn < out@.len() ==> (#[trigger] out@[turn]).chan == served(
                turn,
                out@.len() as int,
            ) && sent_as(
                old(chans)@[served(turn, out@.len() as int)],
                final(chans)@[served(turn, out@.len() as int)],
                payload@,
                globals@[served(turn, out@.len() as int)],
                out@[turn].outcome,
            ),
{
    let n = chans.len();
    let mut out: Vec<Delivery> = Vec::new();
    let mut turn: usize = 0;
    while turn < n
        invariant
            n == old(chans)@.len(),
            n == chans@.len(),
            n == globals@.len(),
            n > 0,
            turn <= n,
            out@.len() == turn,
            forall|c: int|
                0 <= c < n && (c > turn || (c == 0 && turn < n)) ==> chans@[c] == old(chans)@[c],
            forall|t: int|
                0 <= t < turn ==> (#[trigger] out@[t]).chan == served(t, n as int) && sent_as(
                    old(chans)@[served(t, n as int)],
                    chans@[served(t, n as int)],
                    payload@,
                    globals@[served(t, n as int)],
                    out@[t].outcome,
                ),
        decreases n - turn,
    {
        let c: usize = if turn + 1 < n {
            turn + 1
        } else {
            0
        };
        let ghost prev = chans@;
        let ghost done = out@;
        let mut sender = chans.remove(c);
        let outcome = sender.send(payload, globals[c]);
        chans.insert(c, sender);
        assert(chans@ =~= prev.update(c as int, sender));
        out.push(Delivery { chan: c, outcome });
        proof {
            assert forall|t: int| 0 <= t < turn + 1 implies (#[trigger] out@[t]).chan == served(
                t,
                n as int,
            ) && sent_as(
                old(chans)@[served(t, n as int)],
                chans@[served(t, n as int)],
                payload@,
                globals@[served(t, n as int)],
                out@[t].outcome,
            ) by {
                if t < turn {
                    assert(out@[t] == done[t]);
                    assert(served(t, n as int) != c);
                    assert(chans@[served(t, n as int)] == prev[served(t, n as int)]);
                }
            }
        }
        turn = turn + 1;
    }
    out
}

/// The turn of a fan-out to `n` channels on which channel `c` is served.
pub open spec fn turn_of(c: int, n: int) -> int {
    if c == 0 {
        n - 1
    } else {
        c - 1
    }
}

/// A fan-out serves every channel exactly once: every turn serves a
/// channel, every channel has its turn, and it has no other.
pub proof fn lemma_every_channel_served_once(n: int)
    requires
        n > 0,
    ensures
        forall|turn: int| 0 <= turn < n ==> 0 <= #[trigger] served(turn, n) < n,
        forall|c: int|
            0 <= c < n ==> 0 <= #[trigger] turn_of(c, n) < n && served(turn_of(c, n), n) == c,
        forall|turn: int| 0 <= turn < n ==> turn_of(#[trigger] served(turn, n), n) == turn,
{
}

} // verus!
