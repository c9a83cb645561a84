//! The wire format of the event stream: one frame per event, in the form of
//! server-sent events. A frame is one or more `data: ` lines and ends with an
//! empty line, so a client can cut the stream into frames as the bytes arrive.

use vstd::prelude::*;

verus! {

/// The line feed, `\n`.
pub const LF: u8 = 10;

/// The carriage return, `\r`.
pub const CR: u8 = 13;

/// The bytes of `data: `, which open every line of a frame.
pub open spec fn data_prefix() -> Seq<u8> {
    seq![100u8, 97u8, 116u8, 97u8, 58u8, 32u8]
}

/// The payload as the lines of a frame, without the opening `data: `: after
/// every line feed of the payload a new `data: ` line begins.
pub open spec fn body(payload: Seq<u8>) -> Seq<u8>
    decreases payload.len(),
{
    if payload.len() == 0 {
        Seq::empty()
    } else if payload.last() == LF {
        body(payload.drop_last()).push(LF) + data_prefix()
    } else {
        body(payload.drop_last()).push(payload.last())
    }
}

/// The frame of a payload: its `data: ` lines and the empty line that ends it.
pub open spec fn framed(payload: Seq<u8>) -> Seq<u8> {
    data_prefix() + body(payload) + seq![LF, LF]
}

/// A payload can be sent when it holds no carriage return: a client would
/// take one for the end of a line.
pub open spec fn sendable(payload: Seq<u8>) -> bool {
    forall|i: int| 0 <= i < payload.len() ==> payload[i] != CR
}

proof fn lemma_lines(payload: Seq<u8>)
    ensures
        (data_prefix() + body(payload)).len() >= 6,
        (data_prefix() + body(payload)).last() != LF,
        forall|i: int|
            #![trigger (data_prefix() + body(payload))[i]]
            0 <= i < (data_prefix() + body(payload)).len() - 1 ==> !((data_prefix() + body(
                payload,
            ))[i] == LF && (data_prefix() + body(payload))[i + 1] == LF),
    decreases payload.len(),
{
    let g = data_prefix() + body(payload);
    if payload.len() == 0 {
        assert(g =~= data_prefix());
    } else {
        lemma_lines(payload.drop_last());
        let before = data_prefix() + body(payload.drop_last());
        if payload.last() == LF {
            assert(g =~= before.push(LF) + data_prefix());
            assert forall|i: int| 0 <= i < g.len() - 1 implies !(#[trigger] g[i] == LF && g[i + 1]
                == LF) by {
                if i + 1 < before.len() {
                    assert(g[i] == before[i] && g[i + 1] == before[i + 1]);
                } else if i + 1 == before.len() {
                    assert(g[i] == before.last());
                } else if i == before.len() {
                    assert(g[i + 1] == data_prefix()[0]);
                } else {
                    assert(g[i] == data_prefix()[i - before.len() - 1]);
                }
            }
            assert(g.last() == data_prefix()[5]);
        } else {
            assert(g =~= before.push(payload.last()));
            assert forall|i: int| 0 <= i < g.len() - 1 implies !(#[trigger] g[i] == LF && g[i + 1]
                == LF) by {
                if i + 1 < before.len() {
                    assert(g[i] == before[i] && g[i + 1] == before[i + 1]);
                } else {
                    assert(g[i] == before.last());
                }
            }
        }
    }
}

/// A frame delimits itself: it ends with an empty line, and no empty line
/// stands anywhere before its end, whatever the payload holds.
pub proof fn lemma_frame_delimits_itself(payload: Seq<u8>)
    ensures
        framed(payload).len() == 8 + body(payload).len(),
        framed(payload)[framed(payload).len() - 2] == LF,
        framed(payload)[framed(payload).len() - 1] == LF,
        forall|i: int|
            #![trigger framed(payload)[i]]
            0 <= i < framed(payload).len() - 2 ==> !(framed(payload)[i] == LF && framed(
                payload,
            )[i + 1] == LF),
{
    lemma_lines(payload);
    let g = data_prefix() + body(payload);
    let f = framed(payload);
    assert(f =~= g + seq![LF, LF]);
    assert forall|i: int| 0 <= i < f.len() - 2 implies !(#[trigger] f[i] == LF && f[i + 1]
        == LF) by {
        if i + 1 < g.len() {
            assert(f[i] == g[i] && f[i + 1] == g[i + 1]);
        } else {
            assert(f[i] == g.last());
        }
    }
}

/// Puts `payload` into a frame, or returns `None` for one that cannot be sent.
pub fn frame(payload: &Vec<u8>) -> (r: Option<Vec<u8>>)
    ensures
        r.is_some() == sendable(payload@),
        match r {
            Some(bytes) => bytes@ == framed(payload@),
            None => true,
        },
{
    let mut out: Vec<u8> = Vec::new();
    out.push(100u8);
    out.push(97u8);
    out.push(116u8);
    out.push(97u8);
    out.push(58u8);
    out.push(32u8);
    assert(out@ =~= data_prefix() + body(payload@.take(0)));
    let mut i: usize = 0;
    while i < payload.len()
        invariant
            i <= payload@.len(),
            out@ == data_prefix() + body(payload@.take(i as int)),
            forall|j: int| 0 <= j < i ==> payload@[j] != CR,
        decreases payload@.len() - i,
    {
        let b = payload[i];
        if b == CR {
            return None;
        }
        proof {
            assert(payload@.take(i + 1).drop_last() =~= payload@.take(i as int));
            assert(payload@.take(i + 1).last() == b);
        }
        out.push(b);
        if b == LF {
            out.push(100u8);
            out.push(97u8);
            out.push(116u8);
            out.push(97u8);
            out.push(58u8);
            out.push(32u8);
            assert(out@ =~= data_prefix() + (body(payload@.take(i as int)).push(LF)
                + data_prefix()));
        } else {
            assert(out@ =~= data_prefix() + body(payload@.take(i as int)).push(b));
        }
        i += 1;
    }
    assert(payload@.take(i as int) =~= payload@);
    out.push(LF);
    out.push(LF);
    assert(out@ =~= framed(payload@));
    Some(out)
}

/// The decimal digits of `n`, most significant first.
pub open spec fn decimal(n: nat) -> Seq<u8>
    decreases n,
{
    if n < 10 {
        seq![(48 + n) as u8]
    } else {
        decimal(n / 10).push((48 + n % 10) as u8)
    }
}

/// The bytes of `event: gap` and its line feed, which name a gap notice.
pub open spec fn gap_line() -> Seq<u8> {
    seq![101u8, 118u8, 101u8, 110u8, 116u8, 58u8, 32u8, 103u8, 97u8, 112u8, LF]
}

/// The notice that `missed` events were dropped: an event named `gap` whose
/// data is the count in decimal digits.
pub open spec fn gap_framed(missed: nat) -> Seq<u8> {
    gap_line() + framed(decimal(missed))
}

/// A number's digits are digits: a gap notice can always be sent, and its
/// data is a single line.
pub proof fn lemma_decimal_is_digits(n: nat)
    ensures
        decimal(n).len() >= 1,
        forall|i: int| 0 <= i < decimal(n).len() ==> 48 <= #[trigger] decimal(n)[i] <= 57,
        sendable(decimal(n)),
        body(decimal(n)) == decimal(n),
    decreases n,
{
    if n < 10 {
        assert(decimal(n) =~= seq![(48 + n) as u8]);
        assert(decimal(n).drop_last() =~= Seq::<u8>::empty());
        assert(body(decimal(n).drop_last()) =~= Seq::<u8>::empty());
        assert(body(decimal(n)) =~= decimal(n));
    } else {
        lemma_decimal_is_digits(n / 10);
        assert(decimal(n).drop_last() =~= decimal(n / 10));
        assert(body(decimal(n)) =~= decimal(n));
    }
}

fn push_decimal(out: &mut Vec<u8>, n: u64)
    ensures
        final(out)@ == old(out)@ + decimal(n as nat),
    decreases n,
{
    if n >= 10 {
        push_decimal(out, n / 10);
    }
    let digit: u8 = (n % 10) as u8;
    out.push(48u8 + digit);
    assert(out@ =~= old(out)@ + decimal(n as nat));
}

/// The frame that tells a client that `missed` events were dropped.
pub fn gap_frame(missed: u64) -> (bytes: Vec<u8>)
    ensures
        bytes@ == gap_framed(missed as nat),
{
    let mut out: Vec<u8> = Vec::new();
    out.push(101u8);
    out.push(118u8);
    out.push(101u8);
    out.push(110u8);
    out.push(116u8);
    out.push(58u8);
    out.push(32u8);
    out.push(103u8);
    out.push(97u8);
    out.push(112u8);
    out.push(LF);
    out.push(100u8);
    out.push(97u8);
    out.push(116u8);
    out.push(97u8);
    out.push(58u8);
    out.push(32u8);
    push_decimal(&mut out, missed);
    out.push(LF);
    out.push(LF);
    proof {
        lemma_decimal_is_digits(missed as nat);
        assert(out@ =~= gap_framed(missed as nat));
    }
    out
}

} // verus!
