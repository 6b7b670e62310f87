//! The deterministic binary encoding the store persists its records in:
//! little-endian fixed-width integers, length-prefixed UTF-8 strings, and
//! length-prefixed entry lists. Every encoder is paired with a total
//! decoder; the decoders reject anything the encoders cannot have produced.

use vstd::prelude::*;
use vstd::utf8::{
    decode_utf8, encode_utf8, encode_utf8_decode_utf8, encode_utf8_valid_utf8, valid_utf8,
};

verus! {

// --- unsigned 64-bit, little endian ---

pub open spec fn s_enc_u64(x: u64) -> Seq<u8> {
    seq![
        (x & 0xff) as u8,
        ((x >> 8) & 0xff) as u8,
        ((x >> 16) & 0xff) as u8,
        ((x >> 24) & 0xff) as u8,
        ((x >> 32) & 0xff) as u8,
        ((x >> 40) & 0xff) as u8,
        ((x >> 48) & 0xff) as u8,
        ((x >> 56) & 0xff) as u8,
    ]
}

pub open spec fn s_combine_u64(
    b0: u8,
    b1: u8,
    b2: u8,
    b3: u8,
    b4: u8,
    b5: u8,
    b6: u8,
    b7: u8,
) -> u64 {
    (b0 as u64) | ((b1 as u64) << 8) | ((b2 as u64) << 16) | ((b3 as u64) << 24) | ((b4 as u64)
        << 32) | ((b5 as u64) << 40) | ((b6 as u64) << 48) | ((b7 as u64) << 56)
}

pub open spec fn s_dec_u64(b: Seq<u8>) -> Option<(u64, Seq<u8>)> {
    if b.len() >= 8 {
        Some((s_combine_u64(b[0], b[1], b[2], b[3], b[4], b[5], b[6], b[7]), b.skip(8)))
    } else {
        None
    }
}

pub proof fn lemma_rt_u64(x: u64, rest: Seq<u8>)
    ensures
        s_dec_u64(s_enc_u64(x) + rest) == Some((x, rest)),
{
    let b = s_enc_u64(x) + rest;
    assert(b.len() >= 8);
    assert(b[0] == (x & 0xff) as u8);
    assert(b[1] == ((x >> 8) & 0xff) as u8);
    assert(b[2] == ((x >> 16) & 0xff) as u8);
    assert(b[3] == ((x >> 24) & 0xff) as u8);
    assert(b[4] == ((x >> 32) & 0xff) as u8);
    assert(b[5] == ((x >> 40) & 0xff) as u8);
    assert(b[6] == ((x >> 48) & 0xff) as u8);
    assert(b[7] == ((x >> 56) & 0xff) as u8);
    assert(s_combine_u64(
        (x & 0xff) as u8,
        ((x >> 8) & 0xff) as u8,
        ((x >> 16) & 0xff) as u8,
        ((x >> 24) & 0xff) as u8,
        ((x >> 32) & 0xff) as u8,
        ((x >> 40) & 0xff) as u8,
        ((x >> 48) & 0xff) as u8,
        ((x >> 56) & 0xff) as u8,
    ) == x) by (bit_vector);
    assert(b.skip(8) =~= rest);
}

pub fn enc_u64(out: &mut Vec<u8>, x: u64)
    ensures
        final(out)@ == old(out)@ + s_enc_u64(x),
{
    out.push((x & 0xff) as u8);
    out.push(((x >> 8) & 0xff) as u8);
    out.push(((x >> 16) & 0xff) as u8);
    out.push(((x >> 24) & 0xff) as u8);
    out.push(((x >> 32) & 0xff) as u8);
    out.push(((x >> 40) & 0xff) as u8);
    out.push(((x >> 48) & 0xff) as u8);
    out.push(((x >> 56) & 0xff) as u8);
    proof {
        assert(out@ =~= old(out)@ + s_enc_u64(x));
    }
}

pub fn dec_u64(b: &Vec<u8>, pos: usize) -> (r: Option<(u64, usize)>)
    requires
        pos <= b@.len(),
    ensures
        match s_dec_u64(b@.skip(pos as int)) {
            Some((v, rest)) => {
                &&& r matches Some((x, p2)) && x == v && pos <= p2 <= b@.len() && b@.skip(p2 as int)
                    == rest
            },
            None => r is None,
        },
{
    if b.len() - pos >= 8 {
        let x = (b[pos] as u64) | ((b[pos + 1] as u64) << 8u64) | ((b[pos + 2] as u64) << 16u64)
            | ((b[pos + 3] as u64) << 24u64) | ((b[pos + 4] as u64) << 32u64) | ((b[pos + 5]
            as u64) << 40u64) | ((b[pos + 6] as u64) << 48u64) | ((b[pos + 7] as u64) << 56u64);
        proof {
            let s = b@.skip(pos as int);
            assert(s.len() >= 8);
            assert(forall|i: int| 0 <= i < s.len() ==> s[i] == b@[pos + i]);
            assert(s.skip(8) =~= b@.skip(pos + 8));
        }
        Some((x, pos + 8))
    } else {
        None
    }
}

// --- u8, bool ---

pub open spec fn s_enc_u8(x: u8) -> Seq<u8> {
    seq![x]
}

pub open spec fn s_dec_u8(b: Seq<u8>) -> Option<(u8, Seq<u8>)> {
    if b.len() >= 1 {
        Some((b[0], b.skip(1)))
    } else {
        None
    }
}

pub proof fn lemma_rt_u8(x: u8, rest: Seq<u8>)
    ensures
        s_dec_u8(s_enc_u8(x) + rest) == Some((x, rest)),
{
    assert((s_enc_u8(x) + rest).skip(1) =~= rest);
}

pub fn enc_u8(out: &mut Vec<u8>, x: u8)
    ensures
        final(out)@ == old(out)@ + s_enc_u8(x),
{
    out.push(x);
    proof {
        assert(out@ =~= old(out)@ + s_enc_u8(x));
    }
}

pub fn dec_u8(b: &Vec<u8>, pos: usize) -> (r: Option<(u8, usize)>)
    requires
        pos <= b@.len(),
    ensures
        match s_dec_u8(b@.skip(pos as int)) {
            Some((v, rest)) => {
                &&& r matches Some((x, p2)) && x == v && pos <= p2 <= b@.len() && b@.skip(p2 as int)
                    == rest
            },
            None => r is None,
        },
{
    if pos < b.len() {
        proof {
            assert(b@.skip(pos as int)[0] == b@[pos as int]);
            assert(b@.skip(pos as int).skip(1) =~= b@.skip(pos + 1));
        }
        Some((b[pos], pos + 1))
    } else {
        None
    }
}

pub open spec fn s_enc_bool(x: bool) -> Seq<u8> {
    seq![if x { 1u8 } else { 0u8 }]
}

pub open spec fn s_dec_bool(b: Seq<u8>) -> Option<(bool, Seq<u8>)> {
    if b.len() >= 1 {
        if b[0] == 1 {
            Some((true, b.skip(1)))
        } else if b[0] == 0 {
            Some((false, b.skip(1)))
        } else {
            None
        }
    } else {
        None
    }
}

pub proof fn lemma_rt_bool(x: bool, rest: Seq<u8>)
    ensures
        s_dec_bool(s_enc_bool(x) + rest) == Some((x, rest)),
{
    assert((s_enc_bool(x) + rest).skip(1) =~= rest);
}

pub fn enc_bool(out: &mut Vec<u8>, x: bool)
    ensures
        final(out)@ == old(out)@ + s_enc_bool(x),
{
    out.push(if x { 1u8 } else { 0u8 });
    proof {
        assert(out@ =~= old(out)@ + s_enc_bool(x));
    }
}

pub fn dec_bool(b: &Vec<u8>, pos: usize) -> (r: Option<(bool, usize)>)
    requires
        pos <= b@.len(),
    ensures
        match s_dec_bool(b@.skip(pos as int)) {
            Some((v, rest)) => {
                &&& r matches Some((x, p2)) && x == v && pos <= p2 <= b@.len() && b@.skip(p2 as int)
                    == rest
            },
            None => r is None,
        },
{
    if pos < b.len() {
        proof {
            assert(b@.skip(pos as int)[0] == b@[pos as int]);
            assert(b@.skip(pos as int).skip(1) =~= b@.skip(pos + 1));
        }
        let v = b[pos];
        if v == 1 {
            Some((true, pos + 1))
        } else if v == 0 {
            Some((false, pos + 1))
        } else {
            None
        }
    } else {
        None
    }
}

// --- usize, as a bounds-checked u64 ---

pub open spec fn s_enc_usize(x: usize) -> Seq<u8> {
    s_enc_u64(x as u64)
}

pub open spec fn s_dec_usize(b: Seq<u8>) -> Option<(usize, Seq<u8>)> {
    match s_dec_u64(b) {
        Some((v, rest)) => if v <= usize::MAX as u64 {
            Some((v as usize, rest))
        } else {
            None
        },
        None => None,
    }
}

pub proof fn lemma_rt_usize(x: usize, rest: Seq<u8>)
    ensures
        s_dec_usize(s_enc_usize(x) + rest) == Some((x, rest)),
{
    lemma_rt_u64(x as u64, rest);
}

pub fn enc_usize(out: &mut Vec<u8>, x: usize)
    ensures
        final(out)@ == old(out)@ + s_enc_usize(x),
{
    enc_u64(out, x as u64);
}

pub fn dec_usize(b: &Vec<u8>, pos: usize) -> (r: Option<(usize, usize)>)
    requires
        pos <= b@.len(),
    ensures
        match s_dec_usize(b@.skip(pos as int)) {
            Some((v, rest)) => {
                &&& r matches Some((x, p2)) && x == v && pos <= p2 <= b@.len() && b@.skip(p2 as int)
                    == rest
            },
            None => r is None,
        },
{
    match dec_u64(b, pos) {
        None => None,
        Some((v, p2)) => {
            if v <= usize::MAX as u64 {
                Some((v as usize, p2))
            } else {
                None
            }
        },
    }
}

// --- signed 64-bit: a sign byte, then the magnitude ---

/// A non-negative value is its own magnitude under sign byte 0; a negative
/// value `x` is stored as `-(x + 1)` under sign byte 1, so every cast in
/// both directions is value preserving.
pub open spec fn s_enc_i64(x: i64) -> Seq<u8> {
    if x >= 0 {
        seq![0u8] + s_enc_u64(x as u64)
    } else {
        seq![1u8] + s_enc_u64((-(x + 1)) as u64)
    }
}

pub open spec fn s_dec_i64(b: Seq<u8>) -> Option<(i64, Seq<u8>)> {
    match s_dec_u8(b) {
        Some((sign, b1)) => if sign == 0 {
            match s_dec_u64(b1) {
                Some((v, rest)) => if v <= i64::MAX as u64 {
                    Some((v as i64, rest))
                } else {
                    None
                },
                None => None,
            }
        } else if sign == 1 {
            match s_dec_u64(b1) {
                Some((v, rest)) => if v <= i64::MAX as u64 {
                    Some((((-(v as i64)) - 1) as i64, rest))
                } else {
                    None
                },
                None => None,
            }
        } else {
            None
        },
        None => None,
    }
}

pub proof fn lemma_rt_i64(x: i64, rest: Seq<u8>)
    ensures
        s_dec_i64(s_enc_i64(x) + rest) == Some((x, rest)),
{
    if x >= 0 {
        assert(s_enc_i64(x) + rest =~= seq![0u8] + (s_enc_u64(x as u64) + rest));
        lemma_rt_u8(0u8, s_enc_u64(x as u64) + rest);
        lemma_rt_u64(x as u64, rest);
    } else {
        assert(s_enc_i64(x) + rest =~= seq![1u8] + (s_enc_u64((-(x + 1)) as u64) + rest));
        lemma_rt_u8(1u8, s_enc_u64((-(x + 1)) as u64) + rest);
        lemma_rt_u64((-(x + 1)) as u64, rest);
    }
}

pub fn enc_i64(out: &mut Vec<u8>, x: i64)
    ensures
        final(out)@ == old(out)@ + s_enc_i64(x),
{
    if x >= 0 {
        enc_u8(out, 0);
        enc_u64(out, x as u64);
    } else {
        enc_u8(out, 1);
        enc_u64(out, (-(x + 1)) as u64);
    }
    proof {
        assert(out@ =~= old(out)@ + s_enc_i64(x));
    }
}

pub fn dec_i64(b: &Vec<u8>, pos: usize) -> (r: Option<(i64, usize)>)
    requires
        pos <= b@.len(),
    ensures
        match s_dec_i64(b@.skip(pos as int)) {
            Some((v, rest)) => {
                &&& r matches Some((x, p2)) && x == v && pos <= p2 <= b@.len() && b@.skip(p2 as int)
                    == rest
            },
            None => r is None,
        },
{
    let (sign, p1) = match dec_u8(b, pos) {
        None => {
            return None;
        },
        Some(v) => v,
    };
    if sign > 1 {
        return None;
    }
    let (mag, p2) = match dec_u64(b, p1) {
        None => {
            return None;
        },
        Some(v) => v,
    };
    if mag > i64::MAX as u64 {
        return None;
    }
    if sign == 0 {
        Some((mag as i64, p2))
    } else {
        Some(((-(mag as i64)) - 1, p2))
    }
}

// --- strings: byte length, then the UTF-8 bytes ---

/// The UTF-8 encoding of the character sequence fits the length prefix.
pub open spec fn encodable_str(s: Seq<char>) -> bool {
    encode_utf8(s).len() <= u64::MAX
}

pub open spec fn s_enc_str(s: Seq<char>) -> Seq<u8> {
    s_enc_u64(encode_utf8(s).len() as u64) + encode_utf8(s)
}

pub open spec fn s_dec_str(b: Seq<u8>) -> Option<(Seq<char>, Seq<u8>)> {
    match s_dec_u64(b) {
        Some((n, b1)) => if n <= b1.len() && valid_utf8(b1.take(n as int)) {
            Some((decode_utf8(b1.take(n as int)), b1.skip(n as int)))
        } else {
            None
        },
        None => None,
    }
}

pub proof fn lemma_rt_str(s: Seq<char>, rest: Seq<u8>)
    requires
        encodable_str(s),
    ensures
        s_dec_str(s_enc_str(s) + rest) == Some((s, rest)),
{
    let bytes = encode_utf8(s);
    let n = bytes.len() as u64;
    assert(s_enc_str(s) + rest =~= s_enc_u64(n) + (bytes + rest));
    lemma_rt_u64(n, bytes + rest);
    assert((bytes + rest).take(n as int) =~= bytes);
    assert((bytes + rest).skip(n as int) =~= rest);
    encode_utf8_valid_utf8(s);
    encode_utf8_decode_utf8(s);
}

pub fn enc_str(out: &mut Vec<u8>, s: &str)
    ensures
        final(out)@ == old(out)@ + s_enc_str(s@),
        encodable_str(s@),
{
    let mut bytes = s.as_bytes_vec();
    enc_u64(out, bytes.len() as u64);
    out.append(&mut bytes);
    proof {
        assert(out@ =~= old(out)@ + s_enc_str(s@));
    }
}

pub fn dec_str(b: &Vec<u8>, pos: usize) -> (r: Option<(String, usize)>)
    requires
        pos <= b@.len(),
    ensures
        match s_dec_str(b@.skip(pos as int)) {
            Some((v, rest)) => {
                &&& r matches Some((s, p2)) && s@ == v && pos <= p2 <= b@.len() && b@.skip(
                    p2 as int,
                ) == rest
            },
            None => r is None,
        },
{
    let (n, p1) = match dec_u64(b, pos) {
        None => {
            return None;
        },
        Some(v) => v,
    };
    if n > (b.len() - p1) as u64 {
        return None;
    }
    let len = n as usize;
    let mut bytes: Vec<u8> = Vec::new();
    let mut i: usize = 0;
    while i < len
        invariant
            p1 + len <= b@.len(),
            b@.len() <= usize::MAX,
            i <= len,
            bytes@ =~= b@.subrange(p1 as int, p1 + i),
        decreases len - i,
    {
        bytes.push(b[p1 + i]);
        i += 1;
    }
    proof {
        assert(bytes@ =~= b@.skip(p1 as int).take(n as int));
    }
    match from_utf8_checked(bytes) {
        Some(s) => {
            proof {
                encode_utf8_decode_utf8(s@);
                vstd::utf8::decode_utf8_encode_utf8(b@.skip(p1 as int).take(n as int));
            }
            Some((s, p1 + len))
        },
        None => None,
    }
}

/// Relies on `String::from_utf8`: it returns `Ok` exactly on a valid UTF-8
/// byte sequence, and the returned string consists of those bytes.
#[verifier::external_body]
fn from_utf8_checked(bytes: Vec<u8>) -> (r: Option<String>)
    ensures
        r matches Some(s) ==> encode_utf8(s@) == bytes@,
        r is Some <==> valid_utf8(bytes@),
{
    match String::from_utf8(bytes) {
        Ok(s) => Some(s),
        Err(_) => None,
    }
}

// --- length-prefixed entry lists, generically over the entry codec ---

pub open spec fn s_enc_items<T>(l: Seq<T>, enc: spec_fn(T) -> Seq<u8>) -> Seq<u8>
    decreases l.len(),
{
    if l.len() == 0 {
        Seq::empty()
    } else {
        enc(l[0]) + s_enc_items(l.skip(1), enc)
    }
}

pub open spec fn s_dec_items<A>(
    b: Seq<u8>,
    dec: spec_fn(Seq<u8>) -> Option<(A, Seq<u8>)>,
    n: nat,
) -> Option<(Seq<A>, Seq<u8>)>
    decreases n,
{
    if n == 0 {
        Some((Seq::empty(), b))
    } else {
        match dec(b) {
            Some((a, b1)) => match s_dec_items(b1, dec, (n - 1) as nat) {
                Some((tail, b2)) => Some((seq![a] + tail, b2)),
                None => None,
            },
            None => None,
        }
    }
}

pub open spec fn s_enc_list<T>(l: Seq<T>, enc: spec_fn(T) -> Seq<u8>) -> Seq<u8> {
    s_enc_u64(l.len() as u64) + s_enc_items(l, enc)
}

pub open spec fn s_dec_list<A>(
    b: Seq<u8>,
    dec: spec_fn(Seq<u8>) -> Option<(A, Seq<u8>)>,
) -> Option<(Seq<A>, Seq<u8>)> {
    match s_dec_u64(b) {
        Some((n, b1)) => s_dec_items(b1, dec, n as nat),
        None => None,
    }
}

/// Appending one entry to the encoded items appends its encoding.
pub proof fn lemma_enc_items_snoc<T>(l: Seq<T>, t: T, enc: spec_fn(T) -> Seq<u8>)
    ensures
        s_enc_items(l.push(t), enc) == s_enc_items(l, enc) + enc(t),
    decreases l.len(),
{
    if l.len() == 0 {
        assert(l.push(t)[0] == t);
        assert(l.push(t).skip(1) =~= Seq::<T>::empty());
        assert(s_enc_items(Seq::<T>::empty(), enc) == Seq::<u8>::empty());
        assert(s_enc_items(l.push(t), enc) == enc(t) + Seq::<u8>::empty());
        assert(enc(t) + Seq::<u8>::empty() =~= Seq::<u8>::empty() + enc(t));
    } else {
        assert(l.push(t)[0] == l[0]);
        assert(l.push(t).skip(1) =~= l.skip(1).push(t));
        lemma_enc_items_snoc(l.skip(1), t, enc);
        assert(s_enc_items(l.push(t), enc) == enc(l[0]) + (s_enc_items(l.skip(1), enc) + enc(t)));
        assert(enc(l[0]) + (s_enc_items(l.skip(1), enc) + enc(t)) =~= (enc(l[0]) + s_enc_items(
            l.skip(1),
            enc,
        )) + enc(t));
        assert(s_enc_items(l, enc) == enc(l[0]) + s_enc_items(l.skip(1), enc));
    }
}

/// Items that were encoded one after the other decode back to themselves
/// (through the entry abstraction), leaving the rest untouched.
pub proof fn lemma_items_rt<T, A>(
    l: Seq<T>,
    enc: spec_fn(T) -> Seq<u8>,
    dec: spec_fn(Seq<u8>) -> Option<(A, Seq<u8>)>,
    abs: spec_fn(T) -> A,
    rest: Seq<u8>,
)
    requires
        forall|t: T, r: Seq<u8>| l.contains(t) ==> #[trigger] dec(enc(t) + r) == Some((abs(t), r)),
    ensures
        s_dec_items(s_enc_items(l, enc) + rest, dec, l.len()) == Some((l.map_values(abs), rest)),
    decreases l.len(),
{
    if l.len() == 0 {
        assert(s_enc_items(l, enc) + rest =~= rest);
        assert(l.map_values(abs) =~= Seq::<A>::empty());
    } else {
        let tail_bytes = s_enc_items(l.skip(1), enc) + rest;
        assert(s_enc_items(l, enc) + rest =~= enc(l[0]) + tail_bytes);
        assert(l.contains(l[0]));
        assert(dec(enc(l[0]) + tail_bytes) == Some((abs(l[0]), tail_bytes)));
        assert(forall|t: T| l.skip(1).contains(t) ==> l.contains(t)) by {
            assert forall|t: T| l.skip(1).contains(t) implies l.contains(t) by {
                let i = choose|i: int| 0 <= i < l.skip(1).len() && l.skip(1)[i] == t;
                assert(l[i + 1] == t);
            }
        }
        lemma_items_rt(l.skip(1), enc, dec, abs, rest);
        assert(seq![abs(l[0])] + l.skip(1).map_values(abs) =~= l.map_values(abs));
    }
}

/// A whole encoded list decodes back to itself (through the entry
/// abstraction), leaving the rest untouched.
pub proof fn lemma_list_rt<T, A>(
    l: Seq<T>,
    enc: spec_fn(T) -> Seq<u8>,
    dec: spec_fn(Seq<u8>) -> Option<(A, Seq<u8>)>,
    abs: spec_fn(T) -> A,
    rest: Seq<u8>,
)
    requires
        l.len() <= u64::MAX,
        forall|t: T, r: Seq<u8>| l.contains(t) ==> #[trigger] dec(enc(t) + r) == Some((abs(t), r)),
    ensures
        s_dec_list(s_enc_list(l, enc) + rest, dec) == Some((l.map_values(abs), rest)),
{
    let items = s_enc_items(l, enc) + rest;
    assert(s_enc_list(l, enc) + rest =~= s_enc_u64(l.len() as u64) + items);
    lemma_rt_u64(l.len() as u64, items);
    lemma_items_rt(l, enc, dec, abs, rest);
}

} // verus!
