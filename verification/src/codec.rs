use vstd::prelude::*;
use crate::types::XcmMessage;
use parity_scale_codec::{Compact, Decode, Encode};

verus! {

/// Length, in bytes, of the canonical SCALE compact encoding of `v`.
pub open spec fn compact_u32_len(v: u32) -> int {
    if v < 64 {
        1
    } else if v < 16384 {
        2
    } else if v < 0x4000_0000 {
        4
    } else {
        5
    }
}

/// The canonical SCALE compact encoding of `v`: a two-bit mode in the lowest
/// bits of the first byte, then the value, little endian.
pub open spec fn compact_u32_bytes(v: u32) -> Seq<u8> {
    if v < 64 {
        seq![(v * 4) as u8]
    } else if v < 16384 {
        let x = v * 4 + 1;
        seq![(x % 256) as u8, (x / 256) as u8]
    } else if v < 0x4000_0000 {
        let x = v * 4 + 2;
        seq![
            (x % 256) as u8,
            ((x / 256) % 256) as u8,
            ((x / 65536) % 256) as u8,
            ((x / 16777216) % 256) as u8,
        ]
    } else {
        seq![
            3u8,
            (v % 256) as u8,
            ((v / 256) % 256) as u8,
            ((v / 65536) % 256) as u8,
            (v / 16777216) as u8,
        ]
    }
}

/// The engine's wire form of one message: the payload length as a SCALE
/// compact, then the payload bytes.
pub open spec fn spec_encode_message(data: Seq<u8>) -> Seq<u8>
    recommends
        data.len() <= u32::MAX,
{
    compact_u32_bytes(data.len() as u32) + data
}

/// The bytes from `pos` on decompose completely into message encodings: the
/// well-formedness of a concatenated batch.
pub open spec fn frames_decode(data: Seq<u8>, pos: int) -> bool
    recommends
        0 <= pos <= data.len(),
    decreases data.len() - pos,
{
    if pos >= data.len() || pos < 0 {
        pos == data.len()
    } else if exists|d: Seq<u8>|
        d.len() <= u32::MAX && spec_encode_message(d).is_prefix_of(data.skip(pos)) {
        let d = choose|d: Seq<u8>|
            d.len() <= u32::MAX && spec_encode_message(d).is_prefix_of(data.skip(pos));
        frames_decode(data, pos + spec_encode_message(d).len())
    } else {
        false
    }
}

/// Consuming one whole frame preserves whether the batch decomposes.
pub proof fn lemma_frames_step(data: Seq<u8>, pos: int, d: Seq<u8>, newpos: int)
    requires
        0 <= pos < data.len(),
        d.len() <= u32::MAX,
        spec_encode_message(d).is_prefix_of(data.skip(pos)),
        newpos == pos + spec_encode_message(d).len(),
        forall|d2: Seq<u8>|
            d2.len() <= u32::MAX && spec_encode_message(d2).is_prefix_of(data.skip(pos)) ==> d2
                == d,
    ensures
        frames_decode(data, pos) == frames_decode(data, newpos),
{
    let dd = choose|dd: Seq<u8>|
        dd.len() <= u32::MAX && spec_encode_message(dd).is_prefix_of(data.skip(pos));
    assert(dd == d);
}

/// Relies on `parity_scale_codec::Compact::<u32>` encoding: it writes exactly
/// the canonical SCALE compact form of the value.
#[verifier::external_body]
fn compact_u32_encode(v: u32) -> (r: Vec<u8>)
    ensures
        r@ == compact_u32_bytes(v),
{
    Compact(v).encode()
}

/// Relies on `parity_scale_codec::Compact::<u32>` decoding: it accepts exactly
/// a canonical SCALE compact prefix, returns its value, and consumes exactly
/// that prefix (non-canonical or truncated input is an error).
#[verifier::external_body]
fn compact_u32_decode_at(bytes: &Vec<u8>, pos: usize) -> (r: Option<(u32, usize)>)
    requires
        pos <= bytes@.len(),
    ensures
        r matches Some(p) ==> {
            &&& p.1 == compact_u32_len(p.0)
            &&& pos + p.1 <= bytes@.len()
            &&& bytes@.subrange(pos as int, pos + p.1) == compact_u32_bytes(p.0)
        },
        forall|v: u32|
            compact_u32_bytes(v).is_prefix_of(bytes@.skip(pos as int)) ==> r == Some(
                (v, compact_u32_len(v) as usize),
            ),
{
    let mut input: &[u8] = &bytes[pos..];
    let before = input.len();
    match Compact::<u32>::decode(&mut input) {
        Ok(c) => Some((c.0, before - input.len())),
        Err(_) => None,
    }
}

/// Encodes a message into the engine's wire form.
pub fn encode_message(m: &XcmMessage) -> (r: Vec<u8>)
    requires
        m.data@.len() <= u32::MAX,
    ensures
        r@ == spec_encode_message(m.data@),
{
    let mut r = compact_u32_encode(m.data.len() as u32);
    let ghost prefix = r@;
    let mut i: usize = 0;
    while i < m.data.len()
        invariant
            i <= m.data.len(),
            r@ == prefix + m.data@.take(i as int),
        decreases m.data.len() - i,
    {
        r.push(m.data[i]);
        i = i + 1;
    }
    proof {
        assert(m.data@.take(m.data@.len() as int) == m.data@);
    }
    r
}

/// Decodes one message from `bytes` starting at `pos`. On success the new
/// position points just past the consumed encoding; a malformed or truncated
/// encoding yields `None`. Exactly the wire forms produced by
/// [`encode_message`] are accepted.
pub fn decode_message_at(bytes: &Vec<u8>, pos: usize) -> (r: Option<(XcmMessage, usize)>)
    requires
        pos <= bytes@.len(),
    ensures
        r matches Some(p) ==> {
            &&& pos < p.1 <= bytes@.len()
            &&& p.0.data@.len() <= u32::MAX
            &&& bytes@.subrange(pos as int, p.1 as int) == spec_encode_message(p.0.data@)
            &&& p.1 - pos == spec_encode_message(p.0.data@).len()
        },
        forall|d: Seq<u8>|
            d.len() <= u32::MAX && spec_encode_message(d).is_prefix_of(bytes@.skip(pos as int))
                ==> (r matches Some(p) && p.0.data@ == d),
{
    match compact_u32_decode_at(bytes, pos) {
        None => {
            proof {
                assert forall|d: Seq<u8>|
                    d.len() <= u32::MAX && spec_encode_message(d).is_prefix_of(
                        bytes@.skip(pos as int),
                    ) implies false by {
                    assert(compact_u32_bytes(d.len() as u32).is_prefix_of(
                        spec_encode_message(d),
                    ));
                    assert(compact_u32_bytes(d.len() as u32).is_prefix_of(
                        bytes@.skip(pos as int),
                    ));
                }
            }
            None
        },
        Some((len32, used)) => {
            let total = bytes.len();
            proof {
                assert(pos + used <= total);
            }
            let data_start = pos + used;
            let data_len = len32 as usize;
            if data_len > total - data_start {
                proof {
                    assert forall|d: Seq<u8>|
                        d.len() <= u32::MAX && spec_encode_message(d).is_prefix_of(
                            bytes@.skip(pos as int),
                        ) implies false by {
                        assert(compact_u32_bytes(d.len() as u32).is_prefix_of(
                            bytes@.skip(pos as int),
                        ));
                        assert(d.len() == len32);
                        assert(spec_encode_message(d).len() <= bytes@.skip(pos as int).len());
                    }
                }
                return None;
            }
            let mut data: Vec<u8> = Vec::new();
            let mut i: usize = 0;
            while i < data_len
                invariant
                    i <= data_len,
                    data_start + data_len <= bytes.len(),
                    data@ == bytes@.subrange(data_start as int, data_start + i),
                decreases data_len - i,
            {
                data.push(bytes[data_start + i]);
                proof {
                    assert(bytes@.subrange(data_start as int, data_start + i + 1)
                        =~= bytes@.subrange(data_start as int, data_start + i).push(
                        bytes@[data_start + i],
                    ));
                }
                i = i + 1;
            }
            let newpos = data_start + data_len;
            proof {
                let enc = spec_encode_message(data@);
                assert(data@ == bytes@.subrange(data_start as int, newpos as int));
                assert(data@.len() == len32);
                assert(enc == compact_u32_bytes(len32) + data@);
                assert(bytes@.subrange(pos as int, newpos as int) =~= enc);
                assert forall|d: Seq<u8>|
                    d.len() <= u32::MAX && spec_encode_message(d).is_prefix_of(
                        bytes@.skip(pos as int),
                    ) implies d == data@ by {
                    let tail = bytes@.skip(pos as int);
                    let encd = spec_encode_message(d);
                    let cd = compact_u32_bytes(d.len() as u32);
                    assert(cd.is_prefix_of(encd)) by {
                        assert(cd =~= encd.subrange(0, cd.len() as int));
                    }
                    assert(cd.is_prefix_of(tail)) by {
                        assert(cd =~= tail.subrange(0, cd.len() as int));
                    }
                    assert(d.len() as u32 == len32);
                    assert(d.len() == len32);
                    assert(cd.len() == used);
                    assert(encd.len() == used + data_len);
                    // d sits right after the compact prefix inside `bytes`.
                    assert(d =~= bytes@.subrange(data_start as int, newpos as int)) by {
                        assert forall|j: int| 0 <= j < d.len() implies d[j] == bytes@[data_start
                            + j] by {
                            assert(encd[used + j] == d[j]);
                            assert(encd == tail.subrange(0, encd.len() as int));
                            assert(tail[used + j] == bytes@[pos + used + j]);
                        }
                    }
                }
            }
            Some((XcmMessage { data }, newpos))
        },
    }
}

} // verus!
