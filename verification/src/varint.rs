//! Base-128 variable-length integers, least significant group first, as
//! the bus record codec uses for lengths and the state tag.

use vstd::prelude::*;

use vstd::arithmetic::div_mod::lemma_fundamental_div_mod;

verus! {

broadcast use vstd::seq_lib::group_seq_lib_default, vstd::seq::group_seq_axioms;

/// The encoding of `n`: seven value bits per byte, high bit marking a
/// continuation.
pub open spec fn spec_varint(n: nat) -> Seq<u8>
    decreases n,
{
    if n < 128 {
        seq![n as u8]
    } else {
        seq![(128 + (n % 128)) as u8] + spec_varint(n / 128)
    }
}

/// Decodes one varint from the front of `bytes`: its value and how many
/// bytes it took, or nothing when the bytes run out or the value would not
/// fit in 64 bits.
pub open spec fn spec_varint_decode(bytes: Seq<u8>) -> Option<(nat, int)>
    decreases bytes.len(),
{
    if bytes.len() == 0 {
        None
    } else if bytes[0] < 128 {
        Some((bytes[0] as nat, 1))
    } else {
        match spec_varint_decode(bytes.skip(1)) {
            None => None,
            Some((v, c)) => {
                let value = (bytes[0] - 128) as nat + 128 * v;
                if value <= u64::MAX as nat {
                    Some((value, c + 1))
                } else {
                    None
                }
            },
        }
    }
}

/// Law: decoding the encoding of `n`, with anything appended, yields `n`
/// and consumes exactly the encoding.
pub proof fn lemma_varint_round_trip(n: nat, rest: Seq<u8>)
    requires
        n <= u64::MAX as nat,
    ensures
        spec_varint_decode(spec_varint(n) + rest) == Some((n, spec_varint(n).len() as int)),
    decreases n,
{
    let e = spec_varint(n);
    if n < 128 {
        assert((e + rest)[0] == n as u8);
        assert(e.len() == 1);
    } else {
        lemma_fundamental_div_mod(n as int, 128);
        assert(n % 128 < 128);
        assert((e + rest)[0] == (128 + (n % 128)) as u8);
        assert((e + rest)[0] >= 128);
        lemma_varint_round_trip(n / 128, rest);
        assert((e + rest).skip(1) =~= spec_varint(n / 128) + rest);
        let low = ((e + rest)[0] - 128) as nat;
        assert(low == n % 128);
        assert(low + 128 * (n / 128) == n);
    }
}

/// Appends the encoding of `n` to `out`.
pub fn push_varint(out: &mut Vec<u8>, n: u64)
    ensures
        final(out)@ == old(out)@ + spec_varint(n as nat),
    decreases n,
{
    if n < 128 {
        out.push(n as u8);
        assert(out@ =~= old(out)@ + spec_varint(n as nat));
    } else {
        let b: u8 = (128 + (n % 128)) as u8;
        out.push(b);
        proof {
            lemma_fundamental_div_mod(n as int, 128);
        }
        push_varint(out, n / 128);
        proof {
            assert(final(out)@ =~= old(out)@ + (seq![b] + spec_varint((n / 128) as nat)));
            assert(spec_varint(n as nat) == seq![b] + spec_varint((n / 128) as nat));
        }
    }
}

/// Reads one varint starting at `pos`, mirroring `spec_varint_decode` on
/// the suffix.
pub fn read_varint(s: &[u8], pos: usize) -> (r: Option<(u64, usize)>)
    requires
        pos <= s@.len(),
    ensures
        match r {
            Some(p) => {
                &&& 1 <= p.1
                &&& pos + p.1 <= s@.len()
                &&& spec_varint_decode(s@.skip(pos as int)) == Some((p.0 as nat, p.1 as int))
            },
            None => spec_varint_decode(s@.skip(pos as int)) is None,
        },
    decreases s@.len() - pos,
{
    let n: usize = s.len();
    if pos == n {
        return None;
    }
    let b = *vstd::slice::slice_index_get(s, pos);
    proof {
        assert(s@.skip(pos as int)[0] == s@[pos as int]);
    }
    if b < 128 {
        Some((b as u64, 1))
    } else {
        match read_varint(s, pos + 1) {
            None => {
                proof {
                    assert(s@.skip(pos as int).skip(1) =~= s@.skip(pos as int + 1));
                }
                None
            },
            Some((v, c)) => {
                proof {
                    assert(s@.skip(pos as int).skip(1) =~= s@.skip(pos as int + 1));
                }
                let low: u64 = (b - 128) as u64;
                if v <= (u64::MAX - low) / 128 {
                    proof {
                        lemma_fundamental_div_mod((u64::MAX - low) as int, 128);
                        assert(128 * v <= u64::MAX - low) by (nonlinear_arith)
                            requires
                                v <= ((u64::MAX - low) / 128) as int,
                                (u64::MAX - low) as int == 128 * (((u64::MAX - low) as int)
                                    / 128) + ((u64::MAX - low) as int) % 128,
                                0 <= ((u64::MAX - low) as int) % 128 < 128,
                        ;
                    }
                    Some((low + 128 * v, c + 1))
                } else {
                    proof {
                        lemma_fundamental_div_mod((u64::MAX - low) as int, 128);
                        assert(low + 128 * (v as int) > u64::MAX) by (nonlinear_arith)
                            requires
                                v as int > ((u64::MAX - low) as int) / 128,
                                (u64::MAX - low) as int == 128 * (((u64::MAX - low) as int)
                                    / 128) + ((u64::MAX - low) as int) % 128,
                                0 <= ((u64::MAX - low) as int) % 128 < 128,
                                low <= u64::MAX,
                        ;
                    }
                    None
                }
            },
        }
    }
}

} // verus!
