//! Byte encoding of field elements and digests.
//!
//! A base field element is its canonical integer in four bytes, lowest first. Extension field
//! elements and digests are their coefficients and limbs, one after another.

use vstd::prelude::*;

use crate::field::{bb, BabyBear, BabyBearExt4, P};
use crate::poseidon2::{Digest, DIGEST_SIZE};

verus! {

/// Why bytes are not the encoding of a value.
#[derive(Copy, Clone, Debug, PartialEq, Eq, Structural)]
pub enum DecodeError {
    /// There are fewer bytes than the value takes.
    UnexpectedEof,
    /// An integer is not below the modulus.
    NotCanonical { value: u32 },
}

/// The integer that four bytes hold, lowest first.
pub open spec fn le_value(bytes: Seq<u8>, at: int) -> u32 {
    (bytes[at] + 0x100 * bytes[at + 1] + 0x1_0000 * bytes[at + 2] + 0x100_0000 * bytes[at
        + 3]) as u32
}

/// The bytes of an element.
pub open spec fn element_bytes(x: BabyBear) -> Seq<u8> {
    let v = bb(x.value as int).value;
    seq![
        (v % 0x100) as u8,
        (v / 0x100 % 0x100) as u8,
        (v / 0x1_0000 % 0x100) as u8,
        (v / 0x100_0000) as u8,
    ]
}

/// The bytes of the elements, one after another.
pub open spec fn elements_bytes(s: Seq<BabyBear>) -> Seq<u8>
    decreases s.len(),
{
    if s.len() == 0 {
        Seq::empty()
    } else {
        elements_bytes(s.drop_last()) + element_bytes(s.last())
    }
}

/// The `n` elements whose encodings lie from `at` on, or why the first that fails is none.
pub open spec fn decoded(bytes: Seq<u8>, at: int, n: nat) -> Result<Seq<BabyBear>, DecodeError>
    decreases n,
{
    if n == 0 {
        Ok(Seq::empty())
    } else {
        match decoded(bytes, at, (n - 1) as nat) {
            Err(e) => Err(e),
            Ok(s) => {
                let p = at + 4 * (n - 1);
                if p + 4 > bytes.len() {
                    Err(DecodeError::UnexpectedEof)
                } else if le_value(bytes, p) >= P {
                    Err(DecodeError::NotCanonical { value: le_value(bytes, p) })
                } else {
                    Ok(s.push(BabyBear { value: le_value(bytes, p) }))
                }
            },
        }
    }
}

/// Appends the encoding of a base field element.
pub fn encode_base_field(val: &BabyBear, out: &mut Vec<u8>)
    ensures
        final(out)@ == old(out)@ + element_bytes(*val),
{
    let v = val.value % P;
    out.push((v % 0x100) as u8);
    out.push((v / 0x100 % 0x100) as u8);
    out.push((v / 0x1_0000 % 0x100) as u8);
    out.push((v / 0x100_0000) as u8);
    assert(out@ =~= old(out)@ + element_bytes(*val));
}

/// Appends the encoding of an extension field element.
pub fn encode_extension_field(val: &BabyBearExt4, out: &mut Vec<u8>)
    ensures
        final(out)@ == old(out)@ + elements_bytes(val.basis()),
{
    encode_base_field(&val.c0, out);
    encode_base_field(&val.c1, out);
    encode_base_field(&val.c2, out);
    encode_base_field(&val.c3, out);
    proof {
        let s = val.basis();
        assert(s.take(4) =~= s);
        assert(s.take(4).drop_last() =~= s.take(3));
        assert(s.take(3).drop_last() =~= s.take(2));
        assert(s.take(2).drop_last() =~= s.take(1));
        assert(s.take(1).drop_last() =~= s.take(0));
        reveal_with_fuel(elements_bytes, 5);
        assert(out@ =~= old(out)@ + elements_bytes(s));
    }
}

/// Appends the encoding of a digest.
pub fn encode_digest(digest: &Digest, out: &mut Vec<u8>)
    ensures
        final(out)@ == old(out)@ + elements_bytes(digest.limbs@),
{
    let ghost before = out@;
    let ghost s = digest.limbs@;
    let mut i: usize = 0;
    proof {
        assert(s.take(0) =~= Seq::empty());
        assert(out@ =~= before + elements_bytes(s.take(0)));
    }
    while i < DIGEST_SIZE
        invariant
            i <= 8,
            s == digest.limbs@,
            out@ == before + elements_bytes(s.take(i as int)),
        decreases 8 - i,
    {
        encode_base_field(&digest.limbs[i], out);
        proof {
            assert(s.take(i + 1).drop_last() =~= s.take(i as int));
            assert(out@ =~= before + elements_bytes(s.take(i + 1)));
        }
        i = i + 1;
    }
    assert(s.take(8) =~= s);
}

/// Reads `n` elements from `at` on.
fn decode_elements(bytes: &[u8], at: usize, n: usize) -> (r: Result<Vec<BabyBear>, DecodeError>)
    requires
        at <= bytes@.len(),
    ensures
        match r {
            Ok(s) => decoded(bytes@, at as int, n as nat) == Ok::<Seq<BabyBear>, DecodeError>(s@),
            Err(e) => decoded(bytes@, at as int, n as nat) == Err::<Seq<BabyBear>, DecodeError>(e),
        },
{
    let mut s: Vec<BabyBear> = Vec::new();
    let mut p: usize = at;
    assert(s@ =~= Seq::empty());
    while s.len() < n
        invariant
            s@.len() <= n,
            p == at + 4 * s@.len(),
            p <= bytes@.len(),
            decoded(bytes@, at as int, s@.len()) == Ok::<Seq<BabyBear>, DecodeError>(s@),
        decreases n - s@.len(),
    {
        if bytes.len() - p < 4 {
            proof {
                lemma_decode_fails(
                    bytes@,
                    at as int,
                    (s@.len() + 1) as nat,
                    n as nat,
                    DecodeError::UnexpectedEof,
                );
            }
            return Err(DecodeError::UnexpectedEof);
        }
        let value = bytes[p] as u32 + 0x100 * bytes[p + 1] as u32 + 0x1_0000 * bytes[p + 2] as u32
            + 0x100_0000 * bytes[p + 3] as u32;
        if value >= P {
            proof {
                lemma_decode_fails(
                    bytes@,
                    at as int,
                    (s@.len() + 1) as nat,
                    n as nat,
                    DecodeError::NotCanonical { value },
                );
            }
            return Err(DecodeError::NotCanonical { value });
        }
        let ghost before = s@;
        s.push(BabyBear { value });
        p = p + 4;
        proof {
            assert((s@.len() - 1) as nat == before.len());
        }
    }
    Ok(s)
}

/// Where an element fails, so does every run of elements that reaches it.
proof fn lemma_decode_fails(bytes: Seq<u8>, at: int, k: nat, n: nat, e: DecodeError)
    requires
        k <= n,
        decoded(bytes, at, k) == Err::<Seq<BabyBear>, DecodeError>(e),
    ensures
        decoded(bytes, at, n) == Err::<Seq<BabyBear>, DecodeError>(e),
    decreases n,
{
    if k < n {
        lemma_decode_fails(bytes, at, k, (n - 1) as nat, e);
    }
}

/// Reads a base field element from `at` on; it takes four bytes.
pub fn decode_base_field(bytes: &[u8], at: usize) -> (r: Result<BabyBear, DecodeError>)
    requires
        at <= bytes@.len(),
    ensures
        match r {
            Ok(x) => decoded(bytes@, at as int, 1) == Ok::<Seq<BabyBear>, DecodeError>(seq![x]),
            Err(e) => decoded(bytes@, at as int, 1) == Err::<Seq<BabyBear>, DecodeError>(e),
        },
{
    match decode_elements(bytes, at, 1) {
        Ok(s) => {
            proof {
                lemma_decoded_len(bytes@, at as int, 1);
                assert(s@ =~= seq![s@[0]]);
            }
            Ok(s[0])
        },
        Err(e) => Err(e),
    }
}

/// Reads an extension field element from `at` on; it takes 16 bytes.
pub fn decode_extension_field(bytes: &[u8], at: usize) -> (r: Result<BabyBearExt4, DecodeError>)
    requires
        at <= bytes@.len(),
    ensures
        match r {
            Ok(x) => decoded(bytes@, at as int, 4) == Ok::<Seq<BabyBear>, DecodeError>(x.basis()),
            Err(e) => decoded(bytes@, at as int, 4) == Err::<Seq<BabyBear>, DecodeError>(e),
        },
{
    match decode_elements(bytes, at, 4) {
        Ok(s) => {
            proof {
                lemma_decoded_len(bytes@, at as int, 4);
            }
            let x = BabyBearExt4 { c0: s[0], c1: s[1], c2: s[2], c3: s[3] };
            assert(s@ =~= x.basis());
            Ok(x)
        },
        Err(e) => Err(e),
    }
}

/// Reads a digest from `at` on; it takes 32 bytes.
pub fn decode_digest(bytes: &[u8], at: usize) -> (r: Result<Digest, DecodeError>)
    requires
        at <= bytes@.len(),
    ensures
        match r {
            Ok(d) => decoded(bytes@, at as int, 8) == Ok::<Seq<BabyBear>, DecodeError>(d.limbs@),
            Err(e) => decoded(bytes@, at as int, 8) == Err::<Seq<BabyBear>, DecodeError>(e),
        },
{
    match decode_elements(bytes, at, 8) {
        Ok(s) => {
            proof {
                lemma_decoded_len(bytes@, at as int, 8);
            }
            let d = Digest { limbs: [s[0], s[1], s[2], s[3], s[4], s[5], s[6], s[7]] };
            assert(s@ =~= d.limbs@);
            Ok(d)
        },
        Err(e) => Err(e),
    }
}

proof fn lemma_decoded_len(bytes: Seq<u8>, at: int, n: nat)
    ensures
        decoded(bytes, at, n) matches Ok(s) ==> s.len() == n,
    decreases n,
{
    if n > 0 {
        lemma_decoded_len(bytes, at, (n - 1) as nat);
    }
}

/// Four bytes are the encoding of the integer they hold.
proof fn lemma_element_bytes(x: BabyBear, bytes: Seq<u8>, at: int)
    requires
        x.wf(),
        0 <= at,
        at + 4 <= bytes.len(),
        bytes.subrange(at, at + 4) == element_bytes(x),
    ensures
        le_value(bytes, at) == x.value,
{
    let v = x.value;
    let b = bytes.subrange(at, at + 4);
    assert(b[0] == bytes[at] && b[1] == bytes[at + 1] && b[2] == bytes[at + 2] && b[3] == bytes[at
        + 3]);
    assert(bb(v as int).value == v);
    assert(v / 0x100_0000 < 0x100);
    assert(v % 0x100 + 0x100 * (v / 0x100 % 0x100) + 0x1_0000 * (v / 0x1_0000 % 0x100)
        + 0x100_0000 * (v / 0x100_0000) == v);
}

/// The integer that four bytes hold has these bytes as its encoding.
proof fn lemma_read_element_bytes(bytes: Seq<u8>, at: int)
    requires
        0 <= at,
        at + 4 <= bytes.len(),
        le_value(bytes, at) < P,
    ensures
        element_bytes(BabyBear { value: le_value(bytes, at) }) == bytes.subrange(at, at + 4),
{
    let v = le_value(bytes, at);
    let (b0, b1, b2, b3) = (bytes[at], bytes[at + 1], bytes[at + 2], bytes[at + 3]);
    assert(bb(v as int).value == v);
    lemma_digits(b0 as int, b1 as int, b2 as int, b3 as int);
    assert(element_bytes(BabyBear { value: v }) =~= seq![b0, b1, b2, b3]);
    assert(bytes.subrange(at, at + 4) =~= seq![b0, b1, b2, b3]);
}

/// The digits of a number in base 256.
proof fn lemma_digits(b0: int, b1: int, b2: int, b3: int)
    requires
        0 <= b0 < 0x100,
        0 <= b1 < 0x100,
        0 <= b2 < 0x100,
        0 <= b3 < 0x100,
    ensures
        ({
            let v = b0 + 0x100 * b1 + 0x1_0000 * b2 + 0x100_0000 * b3;
            &&& v % 0x100 == b0
            &&& v / 0x100 % 0x100 == b1
            &&& v / 0x1_0000 % 0x100 == b2
            &&& v / 0x100_0000 == b3
        }),
{
    let v = b0 + 0x100 * b1 + 0x1_0000 * b2 + 0x100_0000 * b3;
    assert(v / 0x100 == b1 + 0x100 * b2 + 0x1_0000 * b3);
    assert(v / 0x1_0000 == b2 + 0x100 * b3);
    assert(v / 0x100_0000 == b3);
}

/// Elements that are written are read back: decoding the encoding of canonical elements, wherever
/// it lies, gives the elements.
pub proof fn decode_undoes_encode(s: Seq<BabyBear>, before: Seq<u8>, after: Seq<u8>)
    requires
        forall|i: int| 0 <= i < s.len() ==> (#[trigger] s[i]).wf(),
    ensures
        elements_bytes(s).len() == 4 * s.len(),
        decoded(before + elements_bytes(s) + after, before.len() as int, s.len()) == Ok::<
            Seq<BabyBear>,
            DecodeError,
        >(s),
    decreases s.len(),
{
    if s.len() > 0 {
        let init = s.drop_last();
        let tail = element_bytes(s.last()) + after;
        decode_undoes_encode(init, before, tail);
        let bytes = before + elements_bytes(s) + after;
        assert(bytes =~= before + elements_bytes(init) + tail);
        let p = before.len() + 4 * (s.len() - 1);
        assert(bytes.subrange(p, p + 4) =~= element_bytes(s.last()));
        lemma_element_bytes(s.last(), bytes, p);
        assert(init.push(s.last()) =~= s);
    } else {
        assert(s =~= Seq::empty());
    }
}

/// What is read is written back: encoding decoded elements gives the bytes they were read from.
pub proof fn encode_undoes_decode(bytes: Seq<u8>, at: int, n: nat, s: Seq<BabyBear>)
    requires
        0 <= at <= bytes.len(),
        decoded(bytes, at, n) == Ok::<Seq<BabyBear>, DecodeError>(s),
    ensures
        s.len() == n,
        at + 4 * n <= bytes.len(),
        elements_bytes(s) == bytes.subrange(at, at + 4 * n),
        forall|i: int| 0 <= i < s.len() ==> (#[trigger] s[i]).wf(),
    decreases n,
{
    if n == 0 {
        assert(elements_bytes(s) =~= bytes.subrange(at, at));
    } else {
        let init = decoded(bytes, at, (n - 1) as nat)->Ok_0;
        encode_undoes_decode(bytes, at, (n - 1) as nat, init);
        assert(s.drop_last() =~= init);
        let p = at + 4 * (n - 1);
        lemma_read_element_bytes(bytes, p);
        assert(elements_bytes(s) =~= bytes.subrange(at, at + 4 * n));
    }
}

/// An element is encoded in four bytes, the lowest first: weighted with the powers of 256, they add
/// up to its canonical integer.
pub proof fn bytes_add_up_to_element(x: BabyBear)
    ensures
        ({
            let b = element_bytes(x);
            &&& b.len() == 4
            &&& b[0] + 0x100 * b[1] + 0x1_0000 * b[2] + 0x100_0000 * b[3] == x.value % P
        }),
{
    let v = bb(x.value as int).value;
    assert(v == x.value % P);
    assert(v / 0x1_0000 / 0x100 == v / 0x100_0000);
    assert(v / 0x100 / 0x100 == v / 0x1_0000);
}

/// Encodings lie one behind the other: byte `j` of element `i` is byte `4i + j` of the whole.
pub proof fn encodings_lie_in_order(s: Seq<BabyBear>, i: int, j: int)
    requires
        0 <= i < s.len(),
        0 <= j < 4,
    ensures
        elements_bytes(s).len() == 4 * s.len(),
        elements_bytes(s)[4 * i + j] == element_bytes(s[i])[j],
    decreases s.len(),
{
    let init = s.drop_last();
    if i < init.len() {
        encodings_lie_in_order(init, i, j);
    } else if init.len() > 0 {
        encodings_lie_in_order(init, 0, 0);
    } else {
        assert(elements_bytes(init) =~= Seq::empty());
    }
}

} // verus!
