use crate::codec::{be_u32, lemma_u32_round_trip, read_be_u32, u32_bytes, write_be_u32};
use crate::stream::{overwrite, RandomAccess};
use std::io;
use vstd::prelude::*;

verus! {

/// Bit pattern of single-precision positive infinity; on disk it marks the
/// end of the data.
pub const INFINITY_BITS: u32 = 0x7f80_0000;

/// Bytes that each vector component takes.
pub const COMPONENT_BYTES: u64 = 4;

#[derive(Debug)]
pub enum Error {
    EOF,
    IO(io::Error),
}

/// The components of a vector, each as four big-endian bytes.
pub open spec fn vector_bytes(v: Seq<u32>) -> Seq<u8>
    decreases v.len(),
{
    if v.len() == 0 {
        Seq::empty()
    } else {
        vector_bytes(v.drop_last()) + u32_bytes(v.last())
    }
}

/// The first `n` components that `b` holds, four big-endian bytes each.
pub open spec fn decode_vector(b: Seq<u8>, n: nat) -> Seq<u32> {
    Seq::new(n, |j: int| be_u32(b.subrange(4 * j, 4 * j + 4)) as u32)
}

/// Whether a component carries the end-of-data sentinel.
pub open spec fn has_sentinel(v: Seq<u32>) -> bool {
    exists|j: int| 0 <= j < v.len() && v[j] == INFINITY_BITS
}

pub proof fn lemma_vector_bytes(v: Seq<u32>)
    ensures
        vector_bytes(v).len() == 4 * v.len(),
        forall|j: int|
            0 <= j < v.len() ==> #[trigger] vector_bytes(v).subrange(4 * j, 4 * j + 4)
                == u32_bytes(v[j]),
    decreases v.len(),
{
    if v.len() > 0 {
        let init = v.drop_last();
        lemma_vector_bytes(init);
        lemma_u32_round_trip(v.last());
        assert forall|j: int| 0 <= j < v.len() implies #[trigger] vector_bytes(v).subrange(
            4 * j,
            4 * j + 4,
        ) == u32_bytes(v[j]) by {
            if j < init.len() {
                assert(vector_bytes(v).subrange(4 * j, 4 * j + 4) =~= vector_bytes(init).subrange(
                    4 * j,
                    4 * j + 4,
                ));
            } else {
                assert(vector_bytes(v).subrange(4 * j, 4 * j + 4) =~= u32_bytes(v.last()));
            }
        }
    }
}

/// Decoding the bytes of a vector gives the vector back.
pub proof fn lemma_decode_vector_bytes(v: Seq<u32>)
    ensures
        decode_vector(vector_bytes(v), v.len()) == v,
{
    lemma_vector_bytes(v);
    assert forall|j: int| 0 <= j < v.len() implies decode_vector(vector_bytes(v), v.len())[j]
        == v[j] by {
        lemma_u32_round_trip(v[j]);
        assert(vector_bytes(v).subrange(4 * j, 4 * j + 4) == u32_bytes(v[j]));
    }
    assert(decode_vector(vector_bytes(v), v.len()) =~= v);
}

/// Reads `dim_size` components at the stream's position. Meeting the
/// sentinel ends the read with `EOF`.
pub fn read<S: RandomAccess>(dim_size: u32, fd: &mut S) -> (r: Result<Vec<u32>, Error>)
    requires
        0 <= old(fd).cursor(),
    ensures
        final(fd).content() == old(fd).content(),
        final(fd).infallible() == old(fd).infallible(),
        r is Ok ==> {
            &&& dim_size > 0 ==> old(fd).cursor() + 4 * dim_size <= old(fd).content().len()
            &&& r->Ok_0@ == decode_vector(
                old(fd).content().subrange(old(fd).cursor(), old(fd).cursor() + 4 * dim_size),
                dim_size as nat,
            )
            &&& !has_sentinel(r->Ok_0@)
            &&& final(fd).cursor() == old(fd).cursor() + 4 * dim_size
        },
        (r matches Err(Error::EOF)) && old(fd).cursor() + 4 * dim_size <= old(fd).content().len()
            ==> has_sentinel(
            decode_vector(
                old(fd).content().subrange(old(fd).cursor(), old(fd).cursor() + 4 * dim_size),
                dim_size as nat,
            ),
        ),
        old(fd).infallible() && old(fd).cursor() + 4 * dim_size <= old(fd).content().len()
            && r is Err ==> r->Err_0 is EOF,
        old(fd).infallible() && old(fd).cursor() + 4 * dim_size <= old(fd).content().len() ==> (
        r is Ok <==> !has_sentinel(
            decode_vector(
                old(fd).content().subrange(old(fd).cursor(), old(fd).cursor() + 4 * dim_size),
                dim_size as nat,
            ),
        )),
{
    let ghost c = fd.content();
    let ghost start = fd.cursor();
    let ghost whole = if start + 4 * dim_size <= c.len() {
        c.subrange(start, start + 4 * dim_size)
    } else {
        Seq::<u8>::empty()
    };
    let mut res: Vec<u32> = Vec::with_capacity(dim_size as usize);
    let mut i: u32 = 0;
    while i < dim_size
        invariant
            0 <= i <= dim_size,
            0 <= start,
            c == old(fd).content(),
            start == old(fd).cursor(),
            fd.content() == c,
            fd.infallible() == old(fd).infallible(),
            fd.cursor() == start + 4 * i,
            i > 0 ==> start + 4 * i <= c.len(),
            start + 4 * dim_size <= c.len() ==> whole == c.subrange(start, start + 4 * dim_size),
            res@ == decode_vector(c.subrange(start, start + 4 * i), i as nat),
            !has_sentinel(res@),
        decreases dim_size - i,
    {
        let bytes = match fd.read_exact(4) {
            Ok(b) => b,
            Err(e) => return Err(Error::IO(e)),
        };
        let component = read_be_u32(bytes.as_slice());
        proof {
            assert(bytes@ =~= c.subrange(start, start + 4 * i + 4).subrange(4 * i, 4 * i + 4));
            if start + 4 * dim_size <= c.len() {
                assert(whole.subrange(4 * i, 4 * i + 4) =~= bytes@);
            }
        }
        if component == INFINITY_BITS {
            proof {
                if start + 4 * dim_size <= c.len() {
                    assert(decode_vector(whole, dim_size as nat)[i as int] == INFINITY_BITS);
                    assert(has_sentinel(decode_vector(whole, dim_size as nat)));
                }
            }
            return Err(Error::EOF);
        }
        res.push(component);
        proof {
            let prev = c.subrange(start, start + 4 * i);
            let next = c.subrange(start, start + 4 * i + 4);
            assert forall|j: int| 0 <= j < i implies #[trigger] next.subrange(4 * j, 4 * j + 4)
                =~= prev.subrange(4 * j, 4 * j + 4) by {}
            assert(next.subrange(4 * i, 4 * i + 4) =~= bytes@);
            assert(res@ =~= decode_vector(next, (i + 1) as nat));
        }
        i = i + 1;
    }
    assert(res@ =~= decode_vector(
        c.subrange(start, start + 4 * dim_size),
        dim_size as nat,
    ));
    Ok(res)
}

/// The bytes of a vector: each component as four big-endian bytes.
pub fn encode(vector: &[u32]) -> (r: Vec<u8>)
    requires
        4 * vector@.len() <= usize::MAX,
    ensures
        r@ == vector_bytes(vector@),
{
    let mut out: Vec<u8> = Vec::with_capacity(vector.len() * 4);
    let mut i: usize = 0;
    while i < vector.len()
        invariant
            0 <= i <= vector@.len(),
            out@ == vector_bytes(vector@.subrange(0, i as int)),
        decreases vector@.len() - i,
    {
        let bytes = write_be_u32(vector[i]);
        let mut k: usize = 0;
        let ghost before = out@;
        while k < 4
            invariant
                0 <= k <= 4,
                bytes@ == u32_bytes(vector@[i as int]),
                out@ == before + bytes@.subrange(0, k as int),
            decreases 4 - k,
        {
            out.push(bytes[k]);
            k = k + 1;
            assert(out@ =~= before + bytes@.subrange(0, k as int));
        }
        assert(vector@.subrange(0, i + 1).drop_last() =~= vector@.subrange(0, i as int));
        assert(bytes@.subrange(0, 4) =~= bytes@);
        i = i + 1;
    }
    assert(vector@.subrange(0, i as int) =~= vector@);
    out
}

/// Writes the components of `vector` at the stream's position, four
/// big-endian bytes each, and returns the number of bytes written.
pub fn write<S: RandomAccess>(vector: &[u32], fd: &mut S) -> (r: Result<usize, io::Error>)
    requires
        0 <= old(fd).cursor(),
        4 * vector@.len() <= usize::MAX,
    ensures
        final(fd).infallible() == old(fd).infallible(),
        r is Ok ==> {
            &&& r->Ok_0 == 4 * vector@.len()
            &&& final(fd).content() == overwrite(
                old(fd).content(),
                old(fd).cursor(),
                vector_bytes(vector@),
            )
            &&& final(fd).cursor() == old(fd).cursor() + 4 * vector@.len()
        },
        old(fd).infallible() && old(fd).cursor() + 4 * vector@.len() <= usize::MAX ==> r is Ok,
{
    let bytes = encode(vector);
    proof {
        lemma_vector_bytes(vector@);
    }
    fd.write_all(bytes.as_slice())?;
    Ok(vector.len() * 4)
}

} // verus!
