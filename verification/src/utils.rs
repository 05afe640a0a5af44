//! Byte-size constants and the buffered-read helper shared by the
//! fingerprinting and comparison code.

use vstd::prelude::*;
use vstd::std_specs::cmp::PartialEqSpec;

verus! {

pub const KB: u64 = 1024;
pub const MB: u64 = 1024 * 1024;
pub const GB: u64 = 1024 * 1024 * 1024;

/// Compares two byte strings for equality.
pub fn bytes_eq(a: &Vec<u8>, b: &Vec<u8>) -> (r: bool)
    ensures
        r == (a@ == b@),
{
    let r = a == b;
    proof {
        if a@ == b@ {
            assert(a.eq_spec(b));
        }
        if r {
            assert(a@ =~= b@);
        }
    }
    r
}

/// Copies a byte string.
pub fn clone_bytes(p: &Vec<u8>) -> (r: Vec<u8>)
    ensures
        r@ == p@,
{
    let mut r: Vec<u8> = Vec::new();
    let mut i: usize = 0;
    while i < p.len()
        invariant
            i <= p.len(),
            r@ == p@.take(i as int),
        decreases p.len() - i,
    {
        r.push(p[i]);
        proof {
            assert(p@.take(i + 1) =~= p@.take(i as int).push(p@[i as int]));
        }
        i += 1;
    }
    proof {
        assert(p@.take(p@.len() as int) =~= p@);
    }
    r
}

/// Opaque declaration of the error type that read calls surface.
#[verifier::external_type_specification]
#[verifier::external_body]
pub struct ExIoError(std::io::Error);

/// Relies on std::io::Read::read: reads into the part of the buffer that
/// starts at `start`, returns the number of bytes read, which is at most
/// the space it was given; the buffer keeps its length and the bytes
/// before `start` are untouched.
#[verifier::external_body]
fn read_into<T: std::io::Read>(
    reader: &mut T,
    buffer: &mut Vec<u8>,
    start: usize,
) -> (r: Result<usize, std::io::Error>)
    requires
        start <= old(buffer).len(),
    ensures
        final(buffer)@.len() == old(buffer)@.len(),
        r matches Ok(n) ==> start + n <= old(buffer)@.len(),
        forall|i: int| 0 <= i < start ==> final(buffer)@[i] == old(buffer)@[i],
{
    match reader.read(&mut buffer[start..]) {
        Ok(n) => Ok(n),
        Err(e) => Err(e),
    }
}

/// Pulls bytes from a reader into the buffer until either the buffer is
/// filled or the reader reaches its end, and returns the number of bytes
/// read. A result smaller than the buffer's length means the reader is
/// exhausted.
pub fn read_exact_or_end<T: std::io::Read>(
    reader: &mut T,
    buffer: &mut Vec<u8>,
) -> (r: Result<usize, std::io::Error>)
    ensures
        final(buffer)@.len() == old(buffer)@.len(),
        r matches Ok(n) ==> n <= old(buffer)@.len(),
{
    let mut cur_idx: usize = 0;
    loop
        invariant
            cur_idx <= buffer@.len(),
            buffer@.len() == old(buffer)@.len(),
        decreases buffer@.len() - cur_idx,
    {
        let res = read_into(reader, buffer, cur_idx);
        let read_count = match res {
            Ok(v) => v,
            Err(e) => {
                return Err(e);
            },
        };
        assert(cur_idx + read_count <= buffer.len());
        cur_idx += read_count;
        if read_count == 0 || cur_idx == buffer.len() {
            return Ok(cur_idx);
        }
    }
}

} // verus!
