//! The canonical binary codec for score-event sequences.
//!
//! Wire layout: a 4-byte little-endian event count, then one 13-byte record
//! per event — the timestamp bits (4 bytes, little-endian), one enemy
//! discriminant byte, and the two position coordinates' bits (4 bytes each,
//! little-endian).

use vstd::prelude::*;

use crate::errors::DecodeError;
use crate::events::Enemy;
use crate::events::ScoreEvent;

verus! {

/// The little-endian bytes of a 32-bit value.
pub open spec fn le32(n: u32) -> Seq<u8> {
    seq![
        (n as int % 256) as u8,
        (n as int / 256 % 256) as u8,
        (n as int / 65536 % 256) as u8,
        (n as int / 16777216 % 256) as u8,
    ]
}

/// The value of four little-endian bytes.
pub open spec fn le32_val(s: Seq<u8>) -> int {
    s[0] + 256 * s[1] + 65536 * s[2] + 16777216 * s[3]
}

/// The wire discriminant of each enemy kind.
pub open spec fn enemy_byte(e: Enemy) -> u8 {
    match e {
        Enemy::Cruiser => 0,
        Enemy::Spaceship => 1,
        Enemy::Asteroid => 2,
    }
}

/// The enemy kind a wire discriminant stands for, if any.
pub open spec fn enemy_of_byte(b: u8) -> Option<Enemy> {
    if b == 0 {
        Some(Enemy::Cruiser)
    } else if b == 1 {
        Some(Enemy::Spaceship)
    } else if b == 2 {
        Some(Enemy::Asteroid)
    } else {
        None
    }
}

/// The 13-byte record of one event.
pub open spec fn encode_event(ev: ScoreEvent) -> Seq<u8> {
    le32(ev.time) + seq![enemy_byte(ev.enemy)] + le32(ev.pos.0) + le32(ev.pos.1)
}

/// The records of a sequence of events, in order.
pub open spec fn events_bytes(evs: Seq<ScoreEvent>) -> Seq<u8>
    decreases evs.len(),
{
    if evs.len() == 0 {
        Seq::empty()
    } else {
        encode_event(evs[0]) + events_bytes(evs.skip(1))
    }
}

/// The canonical encoding of a sequence of events: the event count as four
/// little-endian bytes, then each event's 13-byte record.
pub open spec fn encode_events(evs: Seq<ScoreEvent>) -> Seq<u8> {
    le32(evs.len() as u32) + events_bytes(evs)
}

/// The event a 13-byte record stands for, unless its discriminant byte names
/// no enemy kind.
pub open spec fn decode_event(s: Seq<u8>) -> Option<ScoreEvent> {
    match enemy_of_byte(s[4]) {
        Some(e) => Some(
            ScoreEvent {
                time: le32_val(s.take(4)) as u32,
                enemy: e,
                pos: (le32_val(s.subrange(5, 9)) as u32, le32_val(s.subrange(9, 13)) as u32),
            },
        ),
        None => None,
    }
}

/// The events of `n` consecutive 13-byte records, unless a record is invalid
/// or the buffer's length is not exactly `13 * n`.
pub open spec fn decode_events(body: Seq<u8>, n: nat) -> Option<Seq<ScoreEvent>>
    decreases n,
{
    if n == 0 {
        if body.len() == 0 {
            Some(Seq::empty())
        } else {
            None
        }
    } else if body.len() < 13 {
        None
    } else {
        match (decode_event(body.take(13)), decode_events(body.skip(13), (n - 1) as nat)) {
            (Some(ev), Some(rest)) => Some(seq![ev] + rest),
            _ => None,
        }
    }
}

/// What decoding a byte buffer yields: the events it encodes, or the first
/// applicable error — `Truncated` when the buffer cannot hold the count
/// prefix, `LengthMismatch` when its length does not fit the declared count,
/// `InvalidEnemy` when a record's discriminant names no enemy kind.
pub open spec fn decode_spec(b: Seq<u8>) -> Result<Seq<ScoreEvent>, DecodeError> {
    if b.len() < 4 {
        Err(DecodeError::Truncated)
    } else {
        let n = le32_val(b.take(4));
        if b.len() - 4 != 13 * n {
            Err(DecodeError::LengthMismatch)
        } else {
            match decode_events(b.skip(4), n as nat) {
                Some(evs) => Ok(evs),
                None => Err(DecodeError::InvalidEnemy),
            }
        }
    }
}

/// Append the little-endian bytes of `n` to `out`.
fn push_le32(out: &mut Vec<u8>, n: u32)
    ensures
        final(out)@ == old(out)@ + le32(n),
{
    out.push((n % 256) as u8);
    out.push((n / 256 % 256) as u8);
    out.push((n / 65536 % 256) as u8);
    out.push((n / 16777216 % 256) as u8);
    assert(out@ =~= old(out)@ + le32(n));
}

/// Reading four little-endian bytes gives back the value they were made of.
pub proof fn lemma_le32_roundtrip(n: u32)
    ensures
        le32(n).len() == 4,
        0 <= le32_val(le32(n)) <= u32::MAX,
        le32_val(le32(n)) == n,
{
    let v = n as int;
    assert(v == 256 * (v / 256) + v % 256);
    assert(v / 256 == 256 * (v / 256 / 256) + v / 256 % 256);
    assert(v / 256 / 256 == v / 65536) by (nonlinear_arith);
    assert(v / 65536 == 256 * (v / 65536 / 256) + v / 65536 % 256);
    assert(v / 65536 / 256 == v / 16777216) by (nonlinear_arith);
    assert(v / 16777216 < 256);
}

/// An event's record is 13 bytes and decodes back to the event.
pub proof fn lemma_event_roundtrip(ev: ScoreEvent)
    ensures
        encode_event(ev).len() == 13,
        decode_event(encode_event(ev)) == Some(ev),
{
    let s = encode_event(ev);
    lemma_le32_roundtrip(ev.time);
    lemma_le32_roundtrip(ev.pos.0);
    lemma_le32_roundtrip(ev.pos.1);
    assert(s.take(4) =~= le32(ev.time));
    assert(s[4] == enemy_byte(ev.enemy));
    assert(s.subrange(5, 9) =~= le32(ev.pos.0));
    assert(s.subrange(9, 13) =~= le32(ev.pos.1));
    assert(enemy_of_byte(enemy_byte(ev.enemy)) == Some(ev.enemy));
}

/// Appending one event appends its 13-byte record.
proof fn lemma_events_bytes_push(evs: Seq<ScoreEvent>, ev: ScoreEvent)
    ensures
        events_bytes(evs.push(ev)) == events_bytes(evs) + encode_event(ev),
    decreases evs.len(),
{
    if evs.len() == 0 {
        assert(evs.push(ev).skip(1) =~= Seq::<ScoreEvent>::empty());
        assert(evs.push(ev)[0] == ev);
        assert(events_bytes(evs.push(ev)) == encode_event(ev) + events_bytes(
            evs.push(ev).skip(1),
        ));
        assert(encode_event(ev) + Seq::<u8>::empty() =~= encode_event(ev));
        assert(events_bytes(evs) + encode_event(ev) =~= encode_event(ev));
    } else {
        assert(evs.push(ev).skip(1) =~= evs.skip(1).push(ev));
        lemma_events_bytes_push(evs.skip(1), ev);
        assert(encode_event(evs[0]) + (events_bytes(evs.skip(1)) + encode_event(ev))
            =~= (encode_event(evs[0]) + events_bytes(evs.skip(1))) + encode_event(ev));
    }
}

/// The records of `evs` take exactly `13 * evs.len()` bytes.
pub proof fn lemma_events_bytes_len(evs: Seq<ScoreEvent>)
    ensures
        events_bytes(evs).len() == 13 * evs.len(),
    decreases evs.len(),
{
    if evs.len() > 0 {
        lemma_event_roundtrip(evs[0]);
        lemma_events_bytes_len(evs.skip(1));
    }
}

/// A buffer of valid records decodes to the events they were made of.
proof fn lemma_decode_events_of_encoded(evs: Seq<ScoreEvent>)
    ensures
        decode_events(events_bytes(evs), evs.len()) == Some(evs),
    decreases evs.len(),
{
    let body = events_bytes(evs);
    if evs.len() == 0 {
        assert(Some(Seq::<ScoreEvent>::empty()) == Some(evs));
    } else {
        lemma_event_roundtrip(evs[0]);
        lemma_events_bytes_len(evs.skip(1));
        assert(body.take(13) =~= encode_event(evs[0]));
        assert(body.skip(13) =~= events_bytes(evs.skip(1)));
        lemma_decode_events_of_encoded(evs.skip(1));
        assert(seq![evs[0]] + evs.skip(1) =~= evs);
    }
}

/// Decoding inverts encoding: the canonical bytes of any event sequence that
/// fits the count prefix decode to exactly that sequence.
pub proof fn lemma_decode_encode(evs: Seq<ScoreEvent>)
    requires
        evs.len() <= u32::MAX,
    ensures
        encode_events(evs).len() == 4 + 13 * evs.len(),
        decode_spec(encode_events(evs)) == Ok::<Seq<ScoreEvent>, DecodeError>(evs),
{
    let b = encode_events(evs);
    let count = evs.len() as u32;
    lemma_le32_roundtrip(count);
    lemma_events_bytes_len(evs);
    assert(b.take(4) =~= le32(count));
    assert(b.skip(4) =~= events_bytes(evs));
    lemma_decode_events_of_encoded(evs);
}

/// Encode `events` into the canonical byte layout.
pub fn encode(events: &[ScoreEvent]) -> (r: Vec<u8>)
    requires
        events@.len() <= u32::MAX,
    ensures
        r@ == encode_events(events@),
        r@.len() == 4 + 13 * events@.len(),
{
    let n = events.len();
    let mut out: Vec<u8> = Vec::new();
    push_le32(&mut out, n as u32);
    let mut i: usize = 0;
    while i < n
        invariant
            i <= n,
            n == events@.len(),
            n <= u32::MAX,
            out@ == le32(n as u32) + events_bytes(events@.take(i as int)),
        decreases n - i,
    {
        let ev = events[i];
        let ghost done = events@.take(i as int);
        push_le32(&mut out, ev.time);
        out.push(enemy_byte_of(ev.enemy));
        push_le32(&mut out, ev.pos.0);
        push_le32(&mut out, ev.pos.1);
        proof {
            lemma_events_bytes_push(done, ev);
            assert(done.push(ev) =~= events@.take(i as int + 1));
            assert(out@ =~= le32(n as u32) + events_bytes(events@.take(i as int + 1)));
        }
        i = i + 1;
    }
    proof {
        assert(events@.take(n as int) =~= events@);
        lemma_decode_encode(events@);
    }
    out
}

/// The wire discriminant of an enemy kind.
fn enemy_byte_of(e: Enemy) -> (r: u8)
    ensures
        r == enemy_byte(e),
{
    match e {
        Enemy::Cruiser => 0,
        Enemy::Spaceship => 1,
        Enemy::Asteroid => 2,
    }
}

/// Read the 32-bit little-endian value at `off`.
fn read_le32(bytes: &Vec<u8>, off: usize) -> (r: u32)
    requires
        off + 4 <= bytes@.len(),
    ensures
        r == le32_val(bytes@.subrange(off as int, off as int + 4)),
{
    let n = bytes.len();
    let b0 = bytes[off];
    let b1 = bytes[off + 1];
    let b2 = bytes[off + 2];
    let b3 = bytes[off + 3];
    let r = b0 as u32 + 256 * (b1 as u32) + 65536 * (b2 as u32) + 16777216 * (b3 as u32);
    proof {
        let s = bytes@.subrange(off as int, off as int + 4);
        assert(s[0] == b0 && s[1] == b1 && s[2] == b2 && s[3] == b3);
    }
    r
}

/// Decode a canonical byte buffer back into its events, or say exactly why
/// it is malformed.
pub fn decode(bytes: &Vec<u8>) -> (r: Result<Vec<ScoreEvent>, DecodeError>)
    ensures
        (match r {
            Ok(evs) => decode_spec(bytes@) == Ok::<Seq<ScoreEvent>, DecodeError>(evs@),
            Err(e) => decode_spec(bytes@) == Err::<Seq<ScoreEvent>, DecodeError>(e),
        }),
{
    let total = bytes.len();
    if total < 4 {
        return Err(DecodeError::Truncated);
    }
    let count = read_le32(bytes, 0);
    proof {
        assert(bytes@.subrange(0, 4) =~= bytes@.take(4));
    }
    let body_len = total - 4;
    if body_len % 13 != 0 || body_len / 13 != count as usize {
        proof {
            lemma_len_mismatch(body_len as int, count as int);
        }
        return Err(DecodeError::LengthMismatch);
    }
    assert(body_len == 13 * count as int);
    let ghost body = bytes@.skip(4);
    let n = count as usize;
    let mut acc: Vec<ScoreEvent> = Vec::new();
    proof {
        assert(body.skip(0) =~= body);
        if decode_events(body, n as nat) is Some {
            let rest0 = decode_events(body, n as nat)->Some_0;
            assert(Seq::<ScoreEvent>::empty() + rest0 =~= rest0);
        }
    }
    let mut i: usize = 0;
    while i < n
        invariant
            i <= n,
            total == bytes@.len(),
            total - 4 == 13 * n,
            n == count,
            count == le32_val(bytes@.take(4)),
            body == bytes@.skip(4),
            body.len() == 13 * n,
            acc@.len() == i,
            (match decode_events(body.skip(13 * i as int), (n - i) as nat) {
                Some(rest) => decode_events(body, n as nat) == Some(acc@ + rest),
                None => decode_events(body, n as nat) is None,
            }),
        decreases n - i,
    {
        let base = 4 + 13 * i;
        assert(base + 13 <= total);
        let ghost rem = body.skip(13 * i as int);
        proof {
            assert(rem.len() == 13 * (n - i));
            assert(rem.take(13) =~= bytes@.subrange(base as int, base as int + 13));
            assert(rem.skip(13) =~= body.skip(13 * (i as int + 1)));
        }
        let eb = bytes[base + 4];
        let time = read_le32(bytes, base);
        let x = read_le32(bytes, base + 5);
        let y = read_le32(bytes, base + 9);
        proof {
            let seg = rem.take(13);
            assert(seg[4] == eb);
            assert(seg.take(4) =~= bytes@.subrange(base as int, base as int + 4));
            assert(seg.subrange(5, 9) =~= bytes@.subrange(base as int + 5, base as int + 9));
            assert(seg.subrange(9, 13) =~= bytes@.subrange(base as int + 9, base as int + 13));
        }
        if eb > 2 {
            proof {
                assert(enemy_of_byte(eb) is None);
                assert(decode_event(rem.take(13)) is None);
                assert(rem.len() >= 13);
                assert(decode_events(rem, (n - i) as nat) is None);
                assert(decode_events(body, n as nat) is None);
                assert(decode_spec(bytes@) == Err::<Seq<ScoreEvent>, DecodeError>(
                    DecodeError::InvalidEnemy,
                ));
            }
            return Err(DecodeError::InvalidEnemy);
        }
        let enemy = if eb == 0 {
            Enemy::Cruiser
        } else if eb == 1 {
            Enemy::Spaceship
        } else {
            Enemy::Asteroid
        };
        let ev = ScoreEvent { time, enemy, pos: (x, y) };
        assert(decode_event(rem.take(13)) == Some(ev));
        let ghost acc_old = acc@;
        acc.push(ev);
        proof {
            let rem2 = body.skip(13 * (i as int + 1));
            if decode_events(rem2, (n - i - 1) as nat) is Some {
                let rest2 = decode_events(rem2, (n - i - 1) as nat)->Some_0;
                assert(decode_events(rem, (n - i) as nat) == Some(seq![ev] + rest2));
                assert(acc_old + (seq![ev] + rest2) =~= (acc_old + seq![ev]) + rest2);
                assert(acc_old.push(ev) =~= acc_old + seq![ev]);
            }
        }
        i = i + 1;
    }
    proof {
        assert(body.skip(13 * n as int) =~= Seq::<u8>::empty());
        assert(decode_events(body.skip(13 * n as int), 0) == Some(Seq::<ScoreEvent>::empty()));
        assert(acc@ + Seq::<ScoreEvent>::empty() =~= acc@);
    }
    Ok(acc)
}

/// When the body length is not thirteen times the count, the two differ.
proof fn lemma_len_mismatch(body_len: int, count: int)
    requires
        body_len >= 0,
        count >= 0,
        body_len % 13 != 0 || body_len / 13 != count,
    ensures
        body_len != 13 * count,
{
    if body_len == 13 * count {
        assert(body_len % 13 == 0 && body_len / 13 == count) by (nonlinear_arith)
            requires
                body_len == 13 * count,
                count >= 0,
        ;
    }
}

} // verus!
