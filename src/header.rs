use crate::codec::{
    be_u32, be_u64, lemma_u32_round_trip, lemma_u64_round_trip, read_be_u32, read_be_u64,
    u32_bytes, u64_bytes, write_be_u32, write_be_u64,
};
use crate::stream::{overwrite, RandomAccess};
use std::io;
use vstd::prelude::*;
use vstd::slice::slice_subrange;

verus! {

/// Length of the product tag that opens every file.
pub const PRODUCT_BYTES: u64 = 18;

/// Length of the whole header: tag, version, data section offset, dimension.
pub const HEADER_BYTES: u64 = 31;

/// The format version that this library writes.
pub const CURRENT_VERSION: u8 = 1;

/// The product tag, the ASCII text `vectoriadb;version`.
pub open spec fn product() -> Seq<u8> {
    seq![118u8, 101, 99, 116, 111, 114, 105, 97, 100, 98, 59, 118, 101, 114, 115, 105, 111, 110]
}

fn product_tag() -> (r: Vec<u8>)
    ensures
        r@ == product(),
{
    let r = vec![118u8, 101, 99, 116, 111, 114, 105, 97, 100, 98, 59, 118, 101, 114, 115, 105, 111, 110];
    assert(r@ =~= product());
    r
}

/// What decoding `b` as UTF-8 gives, if it is valid UTF-8.
pub uninterp spec fn utf8_text(b: Seq<u8>) -> Option<Seq<char>>;

/// Relies on `std::str::from_utf8`: the text that the bytes encode, or
/// `None` where they are not valid UTF-8.
#[verifier::external_body]
fn decode_utf8(b: &[u8]) -> (r: Option<String>)
    ensures
        match r {
            Some(s) => utf8_text(b@) == Some(s@),
            None => utf8_text(b@) is None,
        },
{
    std::str::from_utf8(b).ok().map(|s| s.to_string())
}

#[derive(Debug)]
pub enum ParseErrorReason {
    ProductNameMismatch(String),
    StringDecodeFailed,
}

#[derive(Debug)]
pub enum Error {
    IO(io::Error),
    Parse(ParseErrorReason),
}

#[derive(Clone, Copy, Debug, PartialEq, Eq, Structural)]
pub struct DbHeader {
    pub version: u8,
    pub dim_size: u32,
    pub data_section: u64,
}

/// The header as it stands in a file.
pub open spec fn header_bytes(h: DbHeader) -> Seq<u8> {
    product() + seq![h.version] + u64_bytes(h.data_section) + u32_bytes(h.dim_size)
}

/// The header that the 31 bytes after the tag-check spell.
pub open spec fn parse_header(b: Seq<u8>) -> DbHeader {
    DbHeader {
        version: b[18],
        data_section: be_u64(b.subrange(19, 27)) as u64,
        dim_size: be_u32(b.subrange(27, 31)) as u32,
    }
}

/// Reading a written header gives it back.
pub proof fn lemma_header_round_trip(h: DbHeader)
    ensures
        header_bytes(h).len() == HEADER_BYTES,
        header_bytes(h).subrange(0, 18) == product(),
        parse_header(header_bytes(h)) == h,
{
    let b = header_bytes(h);
    lemma_u64_round_trip(h.data_section);
    lemma_u32_round_trip(h.dim_size);
    assert(b.subrange(0, 18) =~= product());
    assert(b.subrange(19, 27) =~= u64_bytes(h.data_section));
    assert(b.subrange(27, 31) =~= u32_bytes(h.dim_size));
}

impl DbHeader {
    pub open spec fn new_spec(dim_size: u32) -> DbHeader {
        DbHeader { version: CURRENT_VERSION, dim_size, data_section: HEADER_BYTES }
    }

    /// A header for a fresh file: the current version, the records starting
    /// right after the header.
    pub fn new(dim_size: u32) -> (r: DbHeader)
        ensures
            r.version == CURRENT_VERSION,
            r.dim_size == dim_size,
            r.data_section == HEADER_BYTES,
            r == DbHeader::new_spec(dim_size),
    {
        DbHeader { version: CURRENT_VERSION, dim_size, data_section: HEADER_BYTES }
    }

    /// Writes the header at the stream's position.
    pub fn write<S: RandomAccess>(&self, fd: &mut S) -> (r: Result<(), Error>)
        requires
            0 <= old(fd).cursor(),
        ensures
            final(fd).infallible() == old(fd).infallible(),
            r is Ok ==> {
                &&& final(fd).content() == overwrite(
                    old(fd).content(),
                    old(fd).cursor(),
                    header_bytes(*self),
                )
                &&& final(fd).cursor() == old(fd).cursor() + HEADER_BYTES
            },
            old(fd).infallible() && old(fd).cursor() + HEADER_BYTES <= usize::MAX ==> r is Ok,
    {
        let mut buf = product_tag();
        buf.push(self.version);
        let ds = write_be_u64(self.data_section);
        let dim = write_be_u32(self.dim_size);
        let mut i: usize = 0;
        let ghost base = buf@;
        while i < 8
            invariant
                0 <= i <= 8,
                ds@ == u64_bytes(self.data_section),
                ds@.len() == 8,
                buf@ == base + ds@.subrange(0, i as int),
            decreases 8 - i,
        {
            buf.push(ds[i]);
            i = i + 1;
            assert(buf@ =~= base + ds@.subrange(0, i as int));
        }
        let mut k: usize = 0;
        let ghost base2 = buf@;
        while k < 4
            invariant
                0 <= k <= 4,
                dim@ == u32_bytes(self.dim_size),
                buf@ == base2 + dim@.subrange(0, k as int),
            decreases 4 - k,
        {
            buf.push(dim[k]);
            k = k + 1;
            assert(buf@ =~= base2 + dim@.subrange(0, k as int));
        }
        assert(buf@ =~= header_bytes(*self));
        match fd.write_all(buf.as_slice()) {
            Ok(()) => Ok(()),
            Err(e) => Err(Error::IO(e)),
        }
    }
}

/// Reads a header at the stream's position. A tag other than the product
/// tag is refused, with the text it spells where it is valid UTF-8.
pub fn read<S: RandomAccess>(fd: &mut S) -> (r: Result<DbHeader, Error>)
    requires
        0 <= old(fd).cursor(),
    ensures
        final(fd).content() == old(fd).content(),
        final(fd).infallible() == old(fd).infallible(),
        r is Ok ==> {
            &&& old(fd).cursor() + HEADER_BYTES <= old(fd).content().len()
            &&& old(fd).content().subrange(old(fd).cursor(), old(fd).cursor() + 18) == product()
            &&& r->Ok_0 == parse_header(
                old(fd).content().subrange(old(fd).cursor(), old(fd).cursor() + HEADER_BYTES),
            )
            &&& final(fd).cursor() == old(fd).cursor() + HEADER_BYTES
        },
        r is Err && r->Err_0 is Parse ==> {
            &&& old(fd).cursor() + 18 <= old(fd).content().len()
            &&& old(fd).content().subrange(old(fd).cursor(), old(fd).cursor() + 18) != product()
        },
        r matches Err(Error::Parse(ParseErrorReason::ProductNameMismatch(s))) ==> utf8_text(
            old(fd).content().subrange(old(fd).cursor(), old(fd).cursor() + 18),
        ) == Some(s@),
        (r matches Err(Error::Parse(ParseErrorReason::StringDecodeFailed))) ==> utf8_text(
            old(fd).content().subrange(old(fd).cursor(), old(fd).cursor() + 18),
        ) is None,
        old(fd).infallible() && old(fd).cursor() + HEADER_BYTES <= old(fd).content().len() ==> (
        r is Ok <==> old(fd).content().subrange(old(fd).cursor(), old(fd).cursor() + 18)
            == product()),
{
    let ghost c = fd.content();
    let ghost p = fd.cursor();
    let tag = match fd.read_exact(18) {
        Ok(b) => b,
        Err(e) => return Err(Error::IO(e)),
    };
    let expected = product_tag();
    let mut same = true;
    let mut i: usize = 0;
    assert(tag@.subrange(0, 0) =~= product().subrange(0, 0));
    while i < 18
        invariant
            0 <= i <= 18,
            tag@.len() == 18,
            expected@ == product(),
            same <==> tag@.subrange(0, i as int) == product().subrange(0, i as int),
        decreases 18 - i,
    {
        if tag[i] != expected[i] {
            assert(tag@.subrange(0, i + 1)[i as int] != product().subrange(0, i + 1)[i as int]);
            same = false;
        }
        proof {
            if same {
                assert(tag@.subrange(0, i + 1) =~= product().subrange(0, i + 1));
            } else if tag@.subrange(0, i + 1) == product().subrange(0, i + 1) {
                assert(tag@.subrange(0, i as int) =~= tag@.subrange(0, i + 1).subrange(0, i as int));
                assert(product().subrange(0, i as int) =~= product().subrange(0, i + 1).subrange(
                    0,
                    i as int,
                ));
            }
        }
        i = i + 1;
    }
    assert(tag@.subrange(0, 18) =~= tag@);
    assert(product().subrange(0, 18) =~= product());
    if !same {
        return match decode_utf8(tag.as_slice()) {
            Some(name) => Err(Error::Parse(ParseErrorReason::ProductNameMismatch(name))),
            None => Err(Error::Parse(ParseErrorReason::StringDecodeFailed)),
        };
    }
    let rest = match fd.read_exact(13) {
        Ok(b) => b,
        Err(e) => return Err(Error::IO(e)),
    };
    let version = rest[0];
    let data_section = read_be_u64(slice_subrange(rest.as_slice(), 1, 9));
    let dim_size = read_be_u32(slice_subrange(rest.as_slice(), 9, 13));
    proof {
        let whole = c.subrange(p, p + HEADER_BYTES);
        assert(whole.subrange(19, 27) =~= rest@.subrange(1, 9));
        assert(whole.subrange(27, 31) =~= rest@.subrange(9, 13));
        assert(whole[18] == rest@[0]);
    }
    Ok(DbHeader { version, dim_size, data_section })
}

} // verus!
