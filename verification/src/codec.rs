//! The persisted byte layout of an event record, and its verified codec.
//!
//! A record is a sequence of length-prefixed blocks: the name, the date, a
//! participant count, and one block per participant address. Strings are
//! stored as their UTF-8 bytes behind a little-endian `u64` byte length, so
//! the layout is dynamically sized. Decoding is specified by a deterministic
//! parser, and encoding then decoding is proved to reproduce the record.

use vstd::prelude::*;
use vstd::utf8::{decode_utf8, encode_utf8, valid_utf8};

use crate::event::{addresses_of, Event, EventModel, Participant};

verus! {

/// The eight bytes of `n`, least significant first.
pub open spec fn enc_u64(n: u64) -> Seq<u8> {
    seq![
        n as u8,
        (n >> 8) as u8,
        (n >> 16) as u8,
        (n >> 24) as u8,
        (n >> 32) as u8,
        (n >> 40) as u8,
        (n >> 48) as u8,
        (n >> 56) as u8,
    ]
}

/// The `u64` read from eight bytes, least significant first.
pub open spec fn dec_u64(b: Seq<u8>) -> u64
    recommends
        b.len() == 8,
{
    (b[0] as u64) | ((b[1] as u64) << 8) | ((b[2] as u64) << 16) | ((b[3] as u64) << 24)
        | ((b[4] as u64) << 32) | ((b[5] as u64) << 40) | ((b[6] as u64) << 48) | ((b[7] as u64)
        << 56)
}

pub proof fn lemma_u64_round_trip(n: u64)
    ensures
        dec_u64(enc_u64(n)) == n,
{
    let b = enc_u64(n);
    assert(b[0] == n as u8);
    assert(b[1] == (n >> 8) as u8);
    assert(b[2] == (n >> 16) as u8);
    assert(b[3] == (n >> 24) as u8);
    assert(b[4] == (n >> 32) as u8);
    assert(b[5] == (n >> 40) as u8);
    assert(b[6] == (n >> 48) as u8);
    assert(b[7] == (n >> 56) as u8);
    assert((n as u8) as u64 | (((n >> 8) as u8) as u64) << 8 | (((n >> 16) as u8) as u64) << 16
        | (((n >> 24) as u8) as u64) << 24 | (((n >> 32) as u8) as u64) << 32 | (((n >> 40) as u8)
        as u64) << 40 | (((n >> 48) as u8) as u64) << 48 | (((n >> 56) as u8) as u64) << 56 == n)
        by (bit_vector);
}

/// Appends the eight little-endian bytes of `n` to `out`.
pub(crate) fn push_u64(out: &mut Vec<u8>, n: u64)
    ensures
        final(out)@ == old(out)@ + enc_u64(n),
{
    out.push(#[verifier::truncate] (n as u8));
    out.push(#[verifier::truncate] ((n >> 8) as u8));
    out.push(#[verifier::truncate] ((n >> 16) as u8));
    out.push(#[verifier::truncate] ((n >> 24) as u8));
    out.push(#[verifier::truncate] ((n >> 32) as u8));
    out.push(#[verifier::truncate] ((n >> 40) as u8));
    out.push(#[verifier::truncate] ((n >> 48) as u8));
    out.push(#[verifier::truncate] ((n >> 56) as u8));
    assert(out@ =~= old(out)@ + enc_u64(n));
}

/// A length-prefixed block: the byte length of `b` as a `u64`, then `b`.
pub open spec fn enc_block(b: Seq<u8>) -> Seq<u8> {
    enc_u64(b.len() as u64) + b
}

/// A string block: the UTF-8 bytes of `s`, length-prefixed.
pub open spec fn enc_str(s: Seq<char>) -> Seq<u8> {
    enc_block(encode_utf8(s))
}

/// Parses one string block at the front of `b`; on success returns the
/// decoded characters and the bytes that follow the block.
pub open spec fn dec_str(b: Seq<u8>) -> Option<(Seq<char>, Seq<u8>)> {
    if b.len() < 8 {
        None
    } else {
        let n = dec_u64(b.take(8)) as int;
        if b.len() - 8 < n {
            None
        } else {
            let chunk = b.subrange(8, 8 + n);
            if valid_utf8(chunk) {
                Some((decode_utf8(chunk), b.skip(8 + n)))
            } else {
                None
            }
        }
    }
}

pub proof fn lemma_dec_str(s: Seq<char>, rest: Seq<u8>)
    requires
        encode_utf8(s).len() <= u64::MAX,
    ensures
        dec_str(enc_str(s) + rest) == Some((s, rest)),
{
    broadcast use vstd::utf8::encode_utf8_valid_utf8, vstd::utf8::encode_utf8_decode_utf8;

    let eb = encode_utf8(s);
    let b = enc_str(s) + rest;
    lemma_u64_round_trip(eb.len() as u64);
    assert(b.take(8) =~= enc_u64(eb.len() as u64));
    assert(b.subrange(8, 8 + eb.len() as int) =~= eb);
    assert(b.skip(8 + eb.len() as int) =~= rest);
}

/// One string block per participant address, in list order.
pub open spec fn enc_parts(ps: Seq<Seq<char>>) -> Seq<u8>
    decreases ps.len(),
{
    if ps.len() == 0 {
        Seq::empty()
    } else {
        enc_str(ps[0]) + enc_parts(ps.drop_first())
    }
}

/// Parses `n` string blocks at the front of `b`.
pub open spec fn dec_parts(b: Seq<u8>, n: nat) -> Option<(Seq<Seq<char>>, Seq<u8>)>
    decreases n,
{
    if n == 0 {
        Some((Seq::empty(), b))
    } else {
        match dec_str(b) {
            None => None,
            Some((s, rest)) => match dec_parts(rest, (n - 1) as nat) {
                None => None,
                Some((ss, rest2)) => Some((seq![s] + ss, rest2)),
            },
        }
    }
}

pub proof fn lemma_dec_parts(ps: Seq<Seq<char>>, rest: Seq<u8>)
    requires
        forall|i: int| 0 <= i < ps.len() ==> encode_utf8(#[trigger] ps[i]).len() <= u64::MAX,
    ensures
        dec_parts(enc_parts(ps) + rest, ps.len()) == Some((ps, rest)),
    decreases ps.len(),
{
    if ps.len() == 0 {
        assert(enc_parts(ps) + rest =~= rest);
    } else {
        let tail = ps.drop_first();
        assert(enc_parts(ps) + rest =~= enc_str(ps[0]) + (enc_parts(tail) + rest));
        lemma_dec_str(ps[0], enc_parts(tail) + rest);
        lemma_dec_parts(tail, rest);
        assert(seq![ps[0]] + tail =~= ps);
    }
}

/// The persisted record: name block, date block, participant count, then one
/// block per participant address.
pub open spec fn enc_event(e: EventModel) -> Seq<u8> {
    enc_str(e.name) + enc_str(e.date) + enc_u64(e.participants.len() as u64) + enc_parts(
        e.participants,
    )
}

/// Whether every block of `e` fits behind a `u64` length prefix. Holds of the
/// model of every in-memory record.
pub open spec fn encodable(e: EventModel) -> bool {
    &&& encode_utf8(e.name).len() <= u64::MAX
    &&& encode_utf8(e.date).len() <= u64::MAX
    &&& e.participants.len() <= u64::MAX
    &&& forall|i: int|
        0 <= i < e.participants.len() ==> encode_utf8(#[trigger] e.participants[i]).len()
            <= u64::MAX
}

/// Parses a whole record; the input must hold exactly one record.
pub open spec fn dec_event(b: Seq<u8>) -> Option<EventModel> {
    match dec_str(b) {
        None => None,
        Some((name, b1)) => match dec_str(b1) {
            None => None,
            Some((date, b2)) => if b2.len() < 8 {
                None
            } else {
                match dec_parts(b2.skip(8), dec_u64(b2.take(8)) as nat) {
                    None => None,
                    Some((ps, b3)) => if b3.len() == 0 {
                        Some(EventModel { name, date, participants: ps })
                    } else {
                        None
                    },
                }
            },
        },
    }
}

/// Encoding a record and parsing the bytes back reproduces the record:
/// same name, same date, and the same participant sequence in the same order.
pub proof fn lemma_event_round_trip(e: EventModel)
    requires
        encodable(e),
    ensures
        dec_event(enc_event(e)) == Some(e),
{
    let b = enc_event(e);
    let after_name = enc_str(e.date) + (enc_u64(e.participants.len() as u64) + enc_parts(
        e.participants,
    ));
    let after_date = enc_u64(e.participants.len() as u64) + enc_parts(e.participants);
    assert(b =~= enc_str(e.name) + after_name);
    lemma_dec_str(e.name, after_name);
    lemma_dec_str(e.date, after_date);
    lemma_u64_round_trip(e.participants.len() as u64);
    assert(after_date.take(8) =~= enc_u64(e.participants.len() as u64));
    assert(after_date.skip(8) =~= enc_parts(e.participants) + Seq::<u8>::empty());
    lemma_dec_parts(e.participants, Seq::empty());
    assert(dec_event(b) == Some(EventModel { name: e.name, date: e.date, participants: e.participants }));
    assert(EventModel { name: e.name, date: e.date, participants: e.participants } =~= e);
}

/// Reads the `u64` stored at `pos` as eight little-endian bytes.
pub(crate) fn read_u64(v: &Vec<u8>, pos: usize) -> (r: u64)
    requires
        pos + 8 <= v@.len(),
    ensures
        r == dec_u64(v@.subrange(pos as int, pos as int + 8)),
{
    // Calling len pins the vector's length below usize::MAX, so the index
    // arithmetic below cannot overflow.
    let _len: usize = v.len();
    let r = (v[pos] as u64) | ((v[pos + 1] as u64) << 8) | ((v[pos + 2] as u64) << 16) | ((v[pos
        + 3] as u64) << 24) | ((v[pos + 4] as u64) << 32) | ((v[pos + 5] as u64) << 40) | ((v[pos
        + 6] as u64) << 48) | ((v[pos + 7] as u64) << 56);
    proof {
        let b = v@.subrange(pos as int, pos as int + 8);
        assert(b[0] == v@[pos as int]);
        assert(b[1] == v@[pos as int + 1]);
        assert(b[2] == v@[pos as int + 2]);
        assert(b[3] == v@[pos as int + 3]);
        assert(b[4] == v@[pos as int + 4]);
        assert(b[5] == v@[pos as int + 5]);
        assert(b[6] == v@[pos as int + 6]);
        assert(b[7] == v@[pos as int + 7]);
    }
    r
}

pub proof fn lemma_enc_parts_snoc(ps: Seq<Seq<char>>, i: int)
    requires
        0 <= i < ps.len(),
    ensures
        enc_parts(ps.take(i + 1)) == enc_parts(ps.take(i)) + enc_str(ps[i]),
    decreases i,
{
    if i == 0 {
        assert(ps.take(1) =~= seq![ps[0]]);
        assert(ps.take(1).drop_first() =~= Seq::<Seq<char>>::empty());
        assert(ps.take(0) =~= Seq::<Seq<char>>::empty());
        assert(enc_parts(ps.take(1)) =~= enc_parts(ps.take(0)) + enc_str(ps[0]));
    } else {
        let tail = ps.drop_first();
        lemma_enc_parts_snoc(tail, i - 1);
        assert(ps.take(i + 1).drop_first() =~= tail.take(i));
        assert(ps.take(i).drop_first() =~= tail.take(i - 1));
        assert(enc_str(ps[0]) + (enc_parts(tail.take(i - 1)) + enc_str(ps[i])) =~= (enc_str(ps[0])
            + enc_parts(tail.take(i - 1))) + enc_str(ps[i]));
    }
}

/// Appends one length-prefixed string block to `out`.
fn push_str_block(out: &mut Vec<u8>, s: &String)
    ensures
        final(out)@ == old(out)@ + enc_str(s@),
        encode_utf8(s@).len() <= u64::MAX,
{
    let bytes: &[u8] = s.as_str().as_bytes();
    let n: usize = bytes.len();
    push_u64(out, n as u64);
    let ghost mid = out@;
    let mut i: usize = 0;
    while i < n
        invariant
            i <= n,
            n == bytes@.len(),
            out@ == mid + bytes@.take(i as int),
        decreases n - i,
    {
        out.push(bytes[i]);
        assert(out@ =~= mid + bytes@.take(i as int + 1));
        i = i + 1;
    }
    assert(bytes@.take(n as int) =~= bytes@);
    assert(out@ =~= old(out)@ + enc_str(s@));
}

/// Encodes an event record into its persisted byte layout.
pub fn encode_event(e: &Event) -> (r: Vec<u8>)
    ensures
        r@ == enc_event(e@),
        encodable(e@),
{
    let mut out: Vec<u8> = Vec::new();
    push_str_block(&mut out, &e.name);
    push_str_block(&mut out, &e.date);
    let n = e.participants.len();
    push_u64(&mut out, n as u64);
    let ghost head = out@;
    let ghost ps = e@.participants;
    let mut i: usize = 0;
    while i < n
        invariant
            i <= n,
            n == e.participants@.len(),
            ps == addresses_of(e.participants@),
            out@ == head + enc_parts(ps.take(i as int)),
            forall|j: int| 0 <= j < i ==> encode_utf8(#[trigger] ps[j]).len() <= u64::MAX,
        decreases n - i,
    {
        push_str_block(&mut out, &e.participants[i].address);
        proof {
            assert(ps[i as int] == e.participants@[i as int]@);
            lemma_enc_parts_snoc(ps, i as int);
            assert(out@ =~= head + enc_parts(ps.take(i as int + 1)));
        }
        i = i + 1;
    }
    proof {
        assert(ps.take(n as int) =~= ps);
        assert(out@ =~= enc_event(e@));
    }
    out
}

/// Copies `n` bytes of `v` starting at `pos`.
fn take_bytes(v: &Vec<u8>, pos: usize, n: usize) -> (r: Vec<u8>)
    requires
        pos + n <= v@.len(),
    ensures
        r@ == v@.subrange(pos as int, pos as int + n as int),
{
    // Calling len pins the vector's length below usize::MAX, so `pos + i`
    // cannot overflow.
    let _len: usize = v.len();
    let mut r: Vec<u8> = Vec::new();
    let mut i: usize = 0;
    while i < n
        invariant
            i <= n,
            pos + n <= v@.len() <= usize::MAX,
            r@ == v@.subrange(pos as int, pos as int + i as int),
        decreases n - i,
    {
        r.push(v[pos + i]);
        assert(r@ =~= v@.subrange(pos as int, pos as int + i as int + 1));
        i = i + 1;
    }
    r
}

/// Relies on `String::from_utf8`: it succeeds exactly on valid UTF-8 input,
/// and returns the string whose characters those bytes encode.
#[verifier::external_body]
pub(crate) fn string_from_utf8(v: Vec<u8>) -> (r: Option<String>)
    ensures
        match r {
            Some(s) => valid_utf8(v@) && s@ == decode_utf8(v@),
            None => !valid_utf8(v@),
        },
{
    String::from_utf8(v).ok()
}

/// Parses one string block of `v` starting at `pos`; on success returns the
/// string and the position just past the block.
fn parse_str(v: &Vec<u8>, pos: usize) -> (r: Option<(String, usize)>)
    requires
        pos <= v@.len(),
    ensures
        match r {
            Some(sp) => pos <= sp.1 <= v@.len() && dec_str(v@.skip(pos as int)) == Some(
                (sp.0@, v@.skip(sp.1 as int)),
            ),
            None => dec_str(v@.skip(pos as int)) is None,
        },
{
    let len = v.len();
    let ghost b = v@.skip(pos as int);
    if len - pos < 8 {
        return None;
    }
    let n = read_u64(v, pos);
    proof {
        assert(b.take(8) =~= v@.subrange(pos as int, pos as int + 8));
    }
    let avail = len - pos - 8;
    if n > avail as u64 {
        return None;
    }
    let nn = n as usize;
    let chunk = take_bytes(v, pos + 8, nn);
    proof {
        assert(chunk@ =~= b.subrange(8, 8 + n as int));
    }
    match string_from_utf8(chunk) {
        Some(s) => {
            proof {
                assert(v@.skip(pos as int + 8 + nn as int) =~= b.skip(8 + n as int));
            }
            Some((s, pos + 8 + nn))
        },
        None => None,
    }
}

/// What `n` more blocks parse to, after the blocks already taken.
pub open spec fn parts_prefix(done: Seq<Seq<char>>, b: Seq<u8>, n: nat) -> Option<
    (Seq<Seq<char>>, Seq<u8>),
> {
    match dec_parts(b, n) {
        None => None,
        Some((ss, rest)) => Some((done + ss, rest)),
    }
}

/// Parses `cnt` participant blocks of `v` starting at `start`; on success
/// returns the participants and the position just past the last block.
fn parse_parts(v: &Vec<u8>, start: usize, cnt: u64) -> (r: Option<(Vec<Participant>, usize)>)
    requires
        start <= v@.len(),
    ensures
        match r {
            Some(pp) => start <= pp.1 <= v@.len() && dec_parts(v@.skip(start as int), cnt as nat)
                == Some((addresses_of(pp.0@), v@.skip(pp.1 as int))),
            None => dec_parts(v@.skip(start as int), cnt as nat) is None,
        },
{
    let mut ps: Vec<Participant> = Vec::new();
    let mut pos = start;
    let mut j: u64 = 0;
    while j < cnt
        invariant
            j <= cnt,
            start <= pos <= v@.len(),
            ps@.len() == j,
            dec_parts(v@.skip(start as int), cnt as nat) == parts_prefix(
                addresses_of(ps@),
                v@.skip(pos as int),
                (cnt - j) as nat,
            ),
        decreases cnt - j,
    {
        let ghost done = addresses_of(ps@);
        let ghost m = (cnt - j) as nat;
        match parse_str(v, pos) {
            None => {
                proof {
                    assert(dec_parts(v@.skip(pos as int), m) is None);
                    assert(dec_parts(v@.skip(start as int), cnt as nat) is None);
                }
                return None;
            },
            Some((addr, p_next)) => {
                proof {
                    let step = dec_parts(v@.skip(p_next as int), (m - 1) as nat);
                    if step is Some {
                        let ss = step.unwrap().0;
                        assert(done + (seq![addr@] + ss) =~= done.push(addr@) + ss);
                    }
                    assert(addresses_of(ps@.push(Participant { address: addr })) =~= done.push(
                        addr@,
                    ));
                }
                ps.push(Participant { address: addr });
                pos = p_next;
                j = j + 1;
            },
        }
    }
    proof {
        assert(addresses_of(ps@) + Seq::<Seq<char>>::empty() =~= addresses_of(ps@));
    }
    Some((ps, pos))
}

/// Decodes a persisted byte record back into an event record.
pub fn decode_event(v: &Vec<u8>) -> (r: Option<Event>)
    ensures
        match r {
            Some(ev) => dec_event(v@) == Some(ev@),
            None => dec_event(v@) is None,
        },
{
    let len = v.len();
    proof {
        assert(v@.skip(0) =~= v@);
    }
    let (name, p1) = match parse_str(v, 0) {
        Some(x) => x,
        None => {
            return None;
        },
    };
    let (date, p2) = match parse_str(v, p1) {
        Some(x) => x,
        None => {
            return None;
        },
    };
    let ghost b2 = v@.skip(p2 as int);
    if len - p2 < 8 {
        return None;
    }
    let cnt = read_u64(v, p2);
    proof {
        assert(b2.take(8) =~= v@.subrange(p2 as int, p2 as int + 8));
        assert(b2.skip(8) =~= v@.skip(p2 as int + 8));
    }
    let (ps, pos) = match parse_parts(v, p2 + 8, cnt) {
        Some(x) => x,
        None => {
            return None;
        },
    };
    if pos < len {
        return None;
    }
    proof {
        assert(v@.skip(pos as int).len() == 0);
    }
    let ev = Event { name, date, participants: ps };
    proof {
        assert(dec_event(v@) == Some(ev@));
    }
    Some(ev)
}

} // verus!
