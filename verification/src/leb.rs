//! Variable-length integer encoding: unsigned LEB128, bounded to 32-bit
//! values at the decoding side.

use vstd::prelude::*;
use crate::err::{Error, ErrorKind};

verus! {

/// The unsigned LEB128 bytes of `n`: seven value bits per byte, low bits
/// first, with the high bit set on every byte but the last.
pub open spec fn uleb(n: nat) -> Seq<u8>
    decreases n,
{
    if n < 128 {
        seq![n as u8]
    } else {
        seq![(128 + (n % 128)) as u8] + uleb(n / 128)
    }
}

/// Reads an unsigned LEB128 integer from the front of `s`: the value and the
/// bytes that follow it, or `None` when `s` ends inside the integer.
pub open spec fn parse_uleb(s: Seq<u8>) -> Option<(nat, Seq<u8>)>
    decreases s.len(),
{
    if s.len() == 0 {
        None
    } else if s[0] < 128 {
        Some((s[0] as nat, s.skip(1)))
    } else {
        match parse_uleb(s.skip(1)) {
            Some((hi, rest)) => Some(((s[0] - 128) as nat + 128 * hi, rest)),
            None => None,
        }
    }
}

/// Reads an unsigned LEB128 integer that must fit in 32 bits.
pub open spec fn parse_u32(s: Seq<u8>) -> Option<(u32, Seq<u8>)> {
    match parse_uleb(s) {
        Some((n, rest)) => if n < 0x1_0000_0000 {
            Some((n as u32, rest))
        } else {
            None
        },
        None => None,
    }
}

/// Reads an unsigned LEB128 integer that must fit in 64 bits; lengths and
/// entry counts use this width.
pub open spec fn parse_u64(s: Seq<u8>) -> Option<(u64, Seq<u8>)> {
    match parse_uleb(s) {
        Some((n, rest)) => if n < 0x1_0000_0000_0000_0000 {
            Some((n as u64, rest))
        } else {
            None
        },
        None => None,
    }
}

/// A successful parse consumes at least one byte.
pub proof fn lemma_parse_uleb_suffix(s: Seq<u8>)
    ensures
        parse_uleb(s) matches Some(p) ==> p.1.len() < s.len(),
    decreases s.len(),
{
    if s.len() > 0 && s[0] >= 128 {
        lemma_parse_uleb_suffix(s.skip(1));
    }
}

/// Decoding inverts encoding: the LEB128 bytes of `n`, followed by anything,
/// parse back to exactly `n` with that remainder.
pub proof fn lemma_uleb_round_trip(n: nat, rest: Seq<u8>)
    ensures
        parse_uleb(uleb(n) + rest) == Some((n, rest)),
    decreases n,
{
    let s = uleb(n) + rest;
    if n < 128 {
        assert(s[0] == n as u8);
        assert(s.skip(1) =~= rest);
    } else {
        lemma_uleb_round_trip(n / 128, rest);
        assert(s[0] == (128 + (n % 128)) as u8);
        assert(s.skip(1) =~= uleb(n / 128) + rest);
        assert((s[0] - 128) as nat == n % 128);
        assert(n % 128 + 128 * (n / 128) == n) by (nonlinear_arith);
    }
}

/// A 32-bit value always round-trips.
pub proof fn lemma_u32_round_trip(n: u32, rest: Seq<u8>)
    ensures
        parse_u32(uleb(n as nat) + rest) == Some((n, rest)),
{
    lemma_uleb_round_trip(n as nat, rest);
}

/// A 64-bit value always round-trips.
pub proof fn lemma_u64_round_trip(n: u64, rest: Seq<u8>)
    ensures
        parse_u64(uleb(n as nat) + rest) == Some((n, rest)),
{
    lemma_uleb_round_trip(n as nat, rest);
}

/// Appends the LEB128 encoding of `n` to `out`.
pub fn write_uleb(out: &mut Vec<u8>, n: u64)
    ensures
        final(out)@ == old(out)@ + uleb(n as nat),
    decreases n,
{
    if n < 128 {
        out.push(n as u8);
        assert(out@ =~= old(out)@ + uleb(n as nat));
    } else {
        let b: u8 = (128 + (n % 128)) as u8;
        out.push(b);
        let ghost mid = out@;
        write_uleb(out, n / 128);
        assert(mid == old(out)@ + seq![(128 + ((n as nat) % 128)) as u8]);
        assert(out@ =~= old(out)@ + uleb(n as nat));
    }
}

/// Reads a 64-bit unsigned LEB128 integer from `data` starting at `pos`; fails
/// exactly where the specification-level parse fails.
pub fn read_uleb64(data: &Vec<u8>, pos: usize) -> (r: Result<(u64, usize), Error>)
    requires
        pos <= data.len(),
    ensures
        match r {
            Ok((v, p)) => {
                &&& parse_u64(data@.skip(pos as int)) == Some((v, data@.skip(p as int)))
                &&& pos < p <= data.len()
            },
            Err(e) => parse_u64(data@.skip(pos as int)) is None,
        },
    decreases data.len() - pos,
{
    let ghost s = data@.skip(pos as int);
    if pos == data.len() {
        assert(s.len() == 0);
        return Err(Error::at(ErrorKind::UnexpectedEof, pos));
    }
    let b = data[pos];
    assert(s[0] == b);
    if b < 128 {
        assert(s.skip(1) =~= data@.skip(pos + 1));
        Ok((b as u64, pos + 1))
    } else {
        match read_uleb64(data, pos + 1) {
            Ok((hi, p)) => {
                assert(s.skip(1) =~= data@.skip(pos + 1));
                let low: u64 = (b - 128) as u64;
                if hi <= (0xFFFF_FFFF_FFFF_FFFFu64 - low) / 128 {
                    let v: u64 = low + 128 * hi;
                    assert(parse_uleb(s) == Some(((low + 128 * hi) as nat, data@.skip(p as int))));
                    Ok((v, p))
                } else {
                    proof {
                        let (full, _rest) = parse_uleb(s.skip(1))->Some_0;
                        assert(full == hi as nat);
                        assert(low as nat + 128 * (hi as nat) >= 0x1_0000_0000_0000_0000)
                            by (nonlinear_arith)
                            requires
                                hi > (0xFFFF_FFFF_FFFF_FFFFu64 - low) / 128,
                                low < 128,
                                hi <= u64::MAX,
                        ;
                    }
                    Err(Error::at(ErrorKind::InvalidVarint, pos))
                }
            },
            Err(e) => {
                assert(s.skip(1) =~= data@.skip(pos + 1));
                proof {
                    if parse_uleb(s.skip(1)) is Some {
                        let (hi, _rest) = parse_uleb(s.skip(1))->Some_0;
                        assert(hi >= 0x1_0000_0000_0000_0000);
                        assert((s[0] - 128) as nat + 128 * hi >= 0x1_0000_0000_0000_0000)
                            by (nonlinear_arith)
                            requires
                                hi >= 0x1_0000_0000_0000_0000,
                        ;
                    }
                }
                Err(e)
            },
        }
    }
}

/// Reads an unsigned LEB128 integer from `data` starting at `pos`; returns the
/// value and the position of the first byte after it. Fails exactly where the
/// specification-level parse fails: a truncated integer or one over 32 bits.
pub fn read_uleb(data: &Vec<u8>, pos: usize) -> (r: Result<(u32, usize), Error>)
    requires
        pos <= data.len(),
    ensures
        match r {
            Ok((v, p)) => {
                &&& parse_u32(data@.skip(pos as int)) == Some((v, data@.skip(p as int)))
                &&& pos < p <= data.len()
            },
            Err(e) => parse_u32(data@.skip(pos as int)) is None,
        },
    decreases data.len() - pos,
{
    let ghost s = data@.skip(pos as int);
    if pos == data.len() {
        assert(s.len() == 0);
        return Err(Error::at(ErrorKind::UnexpectedEof, pos));
    }
    let b = data[pos];
    assert(s[0] == b);
    if b < 128 {
        assert(s.skip(1) =~= data@.skip(pos + 1));
        Ok((b as u32, pos + 1))
    } else {
        match read_uleb(data, pos + 1) {
            Ok((hi, p)) => {
                assert(s.skip(1) =~= data@.skip(pos + 1));
                let low: u32 = (b - 128) as u32;
                if hi <= (0xFFFF_FFFFu32 - low) / 128 {
                    let v: u32 = low + 128 * hi;
                    assert(parse_uleb(s) == Some(((low + 128 * hi) as nat, data@.skip(p as int))));
                    Ok((v, p))
                } else {
                    proof {
                        let (full, _rest) = parse_uleb(s.skip(1))->Some_0;
                        assert(full == hi as nat);
                        assert(low as nat + 128 * (hi as nat) >= 0x1_0000_0000) by (nonlinear_arith)
                            requires hi > (0xFFFF_FFFFu32 - low) / 128, low < 128, hi <= u32::MAX;
                    }
                    Err(Error::at(ErrorKind::InvalidVarint, pos))
                }
            },
            Err(e) => {
                assert(s.skip(1) =~= data@.skip(pos + 1));
                proof {
                    if parse_uleb(s.skip(1)) is Some {
                        let (hi, _rest) = parse_uleb(s.skip(1))->Some_0;
                        assert(hi >= 0x1_0000_0000);
                        assert((s[0] - 128) as nat + 128 * hi >= 0x1_0000_0000) by (nonlinear_arith)
                            requires hi >= 0x1_0000_0000;
                    }
                }
                Err(e)
            },
        }
    }
}

} // verus!
