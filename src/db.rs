use crate::codec::{be_u32, lemma_be_u32_bound, lemma_u32_round_trip, read_be_u32, u32_bytes, write_be_u32};
use crate::header::{self, parse_header, product, DbHeader, HEADER_BYTES};
use crate::layer::{self, built_from, edges_from, ids_in_range, Edge, HnswLayer};
use crate::shift::move_content;
use crate::stream::{out_of_memory, overwrite, RandomAccess};
use crate::vio::{self, decode_vector, has_sentinel, lemma_decode_vector_bytes, vector_bytes};
use std::io;
use vstd::arithmetic::div_mod::{lemma_div_by_multiple, lemma_fundamental_div_mod, lemma_mod_multiples_basic};
use std::collections::HashMap;
use vstd::prelude::*;
use vstd::slice::slice_to_vec;

verus! {

/// Bytes that a record's id takes.
pub const ID_BYTES: u64 = 4;

/// A stored record: its id and its components (single-precision bit patterns).
pub type Record = (u32, Seq<u32>);

/// Bytes of one record: the id and `dim` components of four bytes each.
pub open spec fn unit_of(dim: u32) -> int {
    4 * dim + 4
}

/// Whether the bytes from `ds` on make up whole records.
pub open spec fn aligned(c: Seq<u8>, ds: int, dim: u32) -> bool {
    &&& ds <= c.len()
    &&& (c.len() - ds) % unit_of(dim) == 0
}

/// The bytes of record `i`.
pub open spec fn slot(c: Seq<u8>, ds: int, unit: int, i: int) -> Seq<u8> {
    c.subrange(ds + i * unit, ds + i * unit + unit)
}

/// The record that the bytes of one slot spell.
pub open spec fn record_of(b: Seq<u8>, dim: u32) -> Record {
    (be_u32(b.subrange(0, 4)) as u32, decode_vector(b.subrange(4, b.len() as int), dim as nat))
}

/// The records of a file whose data section starts at `ds`, in file order.
pub open spec fn records_of(c: Seq<u8>, ds: int, dim: u32) -> Seq<Record> {
    let unit = unit_of(dim);
    Seq::new(
        ((c.len() - ds) / unit) as nat,
        |i: int| record_of(slot(c, ds, unit, i), dim),
    )
}

/// Ids strictly ascending in file order.
pub open spec fn ids_ascending(r: Seq<Record>) -> bool {
    forall|i: int, j: int| 0 <= i < j < r.len() ==> #[trigger] r[i].0 < #[trigger] r[j].0
}

/// Whether some record has id `id`.
pub open spec fn holds_id(r: Seq<Record>, id: u32) -> bool {
    exists|k: int| 0 <= k < r.len() && #[trigger] r[k].0 == id
}

/// The components stored under `id` (meaningful where `holds_id`).
pub open spec fn vector_of(r: Seq<Record>, id: u32) -> Seq<u32> {
    r[choose|k: int| 0 <= k < r.len() && #[trigger] r[k].0 == id].1
}

/// The id that a push gives: one past the last id, or 0 on an empty store.
pub open spec fn next_id(r: Seq<Record>) -> int {
    if r.len() == 0 {
        0
    } else {
        r.last().0 + 1
    }
}

/// In a store with ascending ids, the record that holds `id` is unique.
pub proof fn lemma_unique_id(r: Seq<Record>, id: u32, k: int)
    requires
        ids_ascending(r),
        0 <= k < r.len(),
        r[k].0 == id,
    ensures
        holds_id(r, id),
        vector_of(r, id) == r[k].1,
{
    let j = choose|j: int| 0 <= j < r.len() && #[trigger] r[j].0 == id;
    if j < k {
        assert(r[j].0 < r[k].0);
    } else if k < j {
        assert(r[k].0 < r[j].0);
    }
}

proof fn lemma_multiple(m: int, unit: int)
    requires
        0 <= m,
        0 < unit,
    ensures
        (m * unit) % unit == 0,
        (m * unit) / unit == m,
{
    lemma_mod_multiples_basic(m, unit);
    lemma_div_by_multiple(m, unit);
}

proof fn lemma_aligned_count(c: Seq<u8>, ds: int, dim: u32)
    requires
        aligned(c, ds, dim),
    ensures
        c.len() - ds == records_of(c, ds, dim).len() * unit_of(dim),
{
    let x = c.len() - ds;
    let d = unit_of(dim);
    lemma_fundamental_div_mod(x, d);
    assert(x / d >= 0) by (nonlinear_arith)
        requires
            x >= 0,
            d > 0,
    ;
    assert(x == (x / d) * d) by (nonlinear_arith)
        requires
            x == d * (x / d) + (x % d),
            x % d == 0,
    ;
}

proof fn lemma_slot_in_bounds(k: int, count: int, unit: int)
    requires
        0 <= k < count,
        0 < unit,
    ensures
        0 <= k * unit,
        k * unit + unit <= count * unit,
        (k + 1) * unit == k * unit + unit,
{
    assert(k * unit + unit <= count * unit) by (nonlinear_arith)
        requires
            0 <= k < count,
            0 < unit,
    ;
    assert(0 <= k * unit) by (nonlinear_arith)
        requires
            0 <= k,
            0 < unit,
    ;
    assert((k + 1) * unit == k * unit + unit) by (nonlinear_arith);
}

/// Appending the bytes of one record appends that record.
proof fn lemma_append_record(c: Seq<u8>, ds: int, dim: u32, b: Seq<u8>)
    requires
        0 <= ds,
        aligned(c, ds, dim),
        b.len() == unit_of(dim),
    ensures
        aligned(c + b, ds, dim),
        records_of(c + b, ds, dim) == records_of(c, ds, dim).push(record_of(b, dim)),
{
    let unit = unit_of(dim);
    let r = records_of(c, ds, dim);
    let n = r.len() as int;
    let c2 = c + b;
    lemma_aligned_count(c, ds, dim);
    lemma_multiple(n + 1, unit);
    assert(c2.len() - ds == (n + 1) * unit) by (nonlinear_arith)
        requires
            c2.len() == c.len() + unit,
            c.len() - ds == n * unit,
    ;
    let r2 = records_of(c2, ds, dim);
    assert forall|i: int| 0 <= i < n + 1 implies r2[i] == r.push(record_of(b, dim))[i] by {
        lemma_slot_in_bounds(i, n + 1, unit);
        if i < n {
            lemma_slot_in_bounds(i, n, unit);
            assert(slot(c2, ds, unit, i) =~= slot(c, ds, unit, i));
        } else {
            assert(slot(c2, ds, unit, i) =~= b);
        }
    }
    assert(r2 =~= r.push(record_of(b, dim)));
}

/// Closing the gap that record `k` leaves removes that record.
proof fn lemma_remove_record(c: Seq<u8>, ds: int, dim: u32, k: int)
    requires
        0 <= ds,
        aligned(c, ds, dim),
        0 <= k < records_of(c, ds, dim).len(),
    ensures
        ({
            let unit = unit_of(dim);
            let c2 = c.subrange(0, ds + k * unit) + c.subrange(ds + k * unit + unit, c.len() as int);
            &&& aligned(c2, ds, dim)
            &&& records_of(c2, ds, dim) == records_of(c, ds, dim).remove(k)
        }),
{
    let unit = unit_of(dim);
    let r = records_of(c, ds, dim);
    let n = r.len() as int;
    lemma_aligned_count(c, ds, dim);
    lemma_slot_in_bounds(k, n, unit);
    let c2 = c.subrange(0, ds + k * unit) + c.subrange(ds + k * unit + unit, c.len() as int);
    lemma_multiple(n - 1, unit);
    assert(c2.len() - ds == (n - 1) * unit) by (nonlinear_arith)
        requires
            c2.len() == c.len() - unit,
            c.len() - ds == n * unit,
    ;
    let r2 = records_of(c2, ds, dim);
    assert forall|i: int| 0 <= i < n - 1 implies r2[i] == r.remove(k)[i] by {
        lemma_slot_in_bounds(i, n - 1, unit);
        lemma_slot_in_bounds(i, n, unit);
        if i < k {
            assert(i * unit + unit <= k * unit) by (nonlinear_arith)
                requires
                    i < k,
                    0 < unit,
            ;
            assert(slot(c2, ds, unit, i) =~= slot(c, ds, unit, i));
        } else {
            lemma_slot_in_bounds(i + 1, n, unit);
            assert(k * unit <= i * unit) by (nonlinear_arith)
                requires
                    k <= i,
                    0 < unit,
            ;
            assert(slot(c2, ds, unit, i) =~= slot(c, ds, unit, i + 1));
        }
    }
    assert(r2 =~= r.remove(k));
}

#[derive(Debug)]
pub enum Error {
    Header(header::Error),
    IO(io::Error),
    Parse(),
    Dimension(u32, usize),
    /// The records are out of id order, or the data section does not hold
    /// whole records.
    Corrupted,
    /// The last id is the largest `u32`: no further id can be given.
    IdExhausted,
}

/// Relies on std's `io::Error::new(ErrorKind::InvalidData, ..)`: the error
/// that reports a record whose components end early.
#[verifier::external_body]
fn missing_data(expected_bytes: u64) -> io::Error {
    io::Error::new(
        io::ErrorKind::InvalidData,
        format!("expecting {0} bytes of data, but got none", expected_bytes),
    )
}

/// The fixed-width records of one database, kept in ascending id order in a
/// stream after the header and the layer section.
pub struct VectorHandle<S: RandomAccess> {
    dim_size: u32,
    data_section: u64,
    fd: S,
}

impl<S: RandomAccess> VectorHandle<S> {
    pub closed spec fn dim(&self) -> u32 {
        self.dim_size
    }

    pub closed spec fn content(&self) -> Seq<u8> {
        self.fd.content()
    }

    pub closed spec fn infallible(&self) -> bool {
        self.fd.infallible()
    }

    /// The offset of the first record.
    pub closed spec fn data_start(&self) -> int {
        self.data_section as int
    }

    /// Whether the data section holds whole records.
    pub open spec fn aligned(&self) -> bool {
        aligned(self.content(), self.data_start(), self.dim())
    }

    /// The records in file order.
    pub open spec fn records(&self) -> Seq<Record> {
        records_of(self.content(), self.data_start(), self.dim())
    }

    /// The stream is small enough for every offset to be a `usize`.
    pub open spec fn fits_memory(&self) -> bool {
        self.content().len() + unit_of(self.dim()) <= isize::MAX
    }

    pub fn new(header: &DbHeader, fd: S) -> (r: VectorHandle<S>)
        ensures
            r.dim() == header.dim_size,
            r.content() == fd.content(),
            r.infallible() == fd.infallible(),
            r.data_start() == header.data_section,
    {
        VectorHandle { dim_size: header.dim_size, data_section: header.data_section, fd }
    }

    pub fn unit_size_bytes(&self) -> (r: u64)
        ensures
            r == unit_of(self.dim()),
    {
        self.dim_size as u64 * 4 + ID_BYTES
    }

    /// The number of records; a data section that does not hold whole
    /// records is refused as corrupted.
    fn seek_count(&mut self) -> (r: Result<u64, Error>)
        ensures
            final(self).content() == old(self).content(),
            final(self).infallible() == old(self).infallible(),
            final(self).dim_size == old(self).dim_size,
            final(self).data_section == old(self).data_section,
            r is Ok ==> {
                &&& old(self).aligned()
                &&& r->Ok_0 == old(self).records().len()
                &&& old(self).content().len() <= u64::MAX
            },
            r matches Err(Error::Corrupted) ==> !old(self).aligned(),
            r is Err ==> r->Err_0 is IO || r->Err_0 is Corrupted,
            old(self).infallible() ==> (r is Ok <==> old(self).aligned()),
    {
        let unit = self.unit_size_bytes();
        let available = match self.fd.seek_end() {
            Ok(n) => n,
            Err(e) => return Err(Error::IO(e)),
        };
        if available < self.data_section || (available - self.data_section) % unit != 0 {
            return Err(Error::Corrupted);
        }
        Ok((available - self.data_section) / unit)
    }

    /// The number of records, leaving the stream's position where it was.
    pub fn count(&mut self) -> (r: Result<u64, Error>)
        ensures
            final(self).content() == old(self).content(),
            final(self).infallible() == old(self).infallible(),
            final(self).dim() == old(self).dim(),
            final(self).records() == old(self).records(),
            final(self).aligned() == old(self).aligned(),
            final(self).fits_memory() == old(self).fits_memory(),
            r is Ok ==> old(self).aligned() && r->Ok_0 == old(self).records().len(),
            r matches Err(Error::Corrupted) ==> !old(self).aligned(),
            old(self).infallible() ==> (r is Ok <==> old(self).aligned()),
    {
        let pos = match self.fd.stream_position() {
            Ok(p) => p,
            Err(e) => return Err(Error::IO(e)),
        };
        let count = self.seek_count()?;
        match self.fd.seek_start(pos) {
            Ok(_) => Ok(count),
            Err(e) => Err(Error::IO(e)),
        }
    }

    fn flush(&mut self) -> (r: Result<(), io::Error>)
        ensures
            final(self).content() == old(self).content(),
            final(self).infallible() == old(self).infallible(),
            final(self).dim_size == old(self).dim_size,
            final(self).data_section == old(self).data_section,
            old(self).infallible() ==> r is Ok,
    {
        self.fd.flush()
    }

    /// The id of record `k`.
    fn read_id(&mut self, k: u64) -> (r: Result<u32, Error>)
        requires
            old(self).aligned(),
            old(self).content().len() <= u64::MAX,
            k < old(self).records().len(),
        ensures
            final(self).content() == old(self).content(),
            final(self).infallible() == old(self).infallible(),
            final(self).dim_size == old(self).dim_size,
            final(self).data_section == old(self).data_section,
            r is Ok ==> r->Ok_0 == old(self).records()[k as int].0,
            r is Err ==> r->Err_0 is IO,
            old(self).infallible() ==> r is Ok,
    {
        let ghost c = self.fd.content();
        let ghost unit = unit_of(self.dim_size);
        let ghost ds = self.data_section as int;
        proof {
            lemma_aligned_count(c, ds, self.dim_size);
            lemma_slot_in_bounds(k as int, self.records().len() as int, unit);
        }
        let pos = self.data_section + k * self.unit_size_bytes();
        if let Err(e) = self.fd.seek_start(pos) {
            return Err(Error::IO(e));
        }
        let bytes = match self.fd.read_exact(4) {
            Ok(b) => b,
            Err(e) => return Err(Error::IO(e)),
        };
        assert(slot(c, ds, unit, k as int).subrange(0, 4) =~= bytes@);
        Ok(read_be_u32(bytes.as_slice()))
    }

    /// Binary search for `id`: the index of the record that holds it.
    /// Meeting ids out of order stops the search with `Corrupted`.
    fn seek_item(&mut self, id: u32) -> (r: Result<Option<u64>, Error>)
        ensures
            final(self).content() == old(self).content(),
            final(self).infallible() == old(self).infallible(),
            final(self).dim_size == old(self).dim_size,
            final(self).data_section == old(self).data_section,
            r is Ok ==> old(self).aligned() && old(self).content().len() <= u64::MAX,
            r matches Ok(Some(k)) ==> k < old(self).records().len() && old(self).records()[k as int].0
                == id,
            r matches Ok(None) && ids_ascending(old(self).records()) ==> !holds_id(
                old(self).records(),
                id,
            ),
            r matches Err(Error::Corrupted) ==> !old(self).aligned() || !ids_ascending(
                old(self).records(),
            ),
            r is Err ==> r->Err_0 is IO || r->Err_0 is Corrupted,
            old(self).infallible() && old(self).aligned() && ids_ascending(old(self).records())
                ==> r is Ok,
    {
        let n = self.seek_count()?;
        let ghost recs = self.records();
        let mut head: u64 = 0;
        let mut tail: u64 = n;
        let mut head_id: u32 = 0;
        let mut tail_id: u32 = 0;
        while head < tail
            invariant
                self.fd.content() == old(self).fd.content(),
                self.fd.infallible() == old(self).fd.infallible(),
                self.dim_size == old(self).dim_size,
                self.data_section == old(self).data_section,
                recs == old(self).records(),
                old(self).aligned(),
                old(self).content().len() <= u64::MAX,
                n == recs.len(),
                0 <= head <= tail <= n,
                head > 0 ==> recs[head - 1].0 == head_id && head_id < id,
                tail < n ==> recs[tail as int].0 == tail_id && tail_id > id,
                ids_ascending(recs) ==> forall|k: int| 0 <= k < head ==> #[trigger] recs[k].0 < id,
                ids_ascending(recs) ==> forall|k: int|
                    tail <= k < n ==> #[trigger] recs[k].0 > id,
            decreases tail - head,
        {
            let mid = head + (tail - head) / 2;
            let mid_id = self.read_id(mid)?;
            if mid_id == id {
                return Ok(Some(mid));
            }
            if (head > 0 && mid_id <= head_id) || (tail < n && mid_id >= tail_id) {
                proof {
                    if head > 0 && mid_id <= head_id {
                        assert(!(recs[head - 1].0 < recs[mid as int].0));
                    } else {
                        assert(!(recs[mid as int].0 < recs[tail as int].0));
                    }
                }
                return Err(Error::Corrupted);
            }
            if id < mid_id {
                proof {
                    if ids_ascending(recs) {
                        assert forall|k: int| mid <= k < n implies #[trigger] recs[k].0 > id by {
                            if k > mid {
                                assert(recs[mid as int].0 < recs[k].0);
                            }
                        }
                    }
                }
                tail = mid;
                tail_id = mid_id;
            } else {
                proof {
                    if ids_ascending(recs) {
                        assert forall|k: int| 0 <= k < mid + 1 implies #[trigger] recs[k].0 < id by {
                            if k < mid {
                                assert(recs[k].0 < recs[mid as int].0);
                            }
                        }
                    }
                }
                head = mid + 1;
                head_id = mid_id;
            }
        }
        Ok(None)
    }

    /// The components of the record `k`.
    fn read_vector(&mut self, k: u64) -> (r: Result<Vec<u32>, vio::Error>)
        requires
            old(self).aligned(),
            old(self).content().len() <= u64::MAX,
            k < old(self).records().len(),
        ensures
            final(self).content() == old(self).content(),
            final(self).infallible() == old(self).infallible(),
            final(self).dim_size == old(self).dim_size,
            final(self).data_section == old(self).data_section,
            r is Ok ==> r->Ok_0@ == old(self).records()[k as int].1,
            r matches Err(vio::Error::EOF) ==> has_sentinel(old(self).records()[k as int].1),
            old(self).infallible() ==> (r is Ok <==> !has_sentinel(
                old(self).records()[k as int].1,
            )),
            old(self).infallible() && r is Err ==> r->Err_0 is EOF,
    {
        let ghost c = self.fd.content();
        let ghost unit = unit_of(self.dim_size);
        let ghost ds = self.data_section as int;
        proof {
            lemma_aligned_count(c, ds, self.dim_size);
            lemma_slot_in_bounds(k as int, self.records().len() as int, unit);
        }
        let pos = self.data_section + k * self.unit_size_bytes() + ID_BYTES;
        if let Err(e) = self.fd.seek_start(pos) {
            return Err(vio::Error::IO(e));
        }
        let ghost s = slot(c, ds, unit, k as int);
        assert(s.subrange(4, s.len() as int) =~= c.subrange(pos as int, pos + 4 * self.dim_size));
        vio::read(self.dim_size, &mut self.fd)
    }

    /// The components stored under `id`, or `None` where no record holds it.
    pub fn get(&mut self, id: u32) -> (r: Result<Option<Vec<u32>>, Error>)
        ensures
            final(self).content() == old(self).content(),
            final(self).infallible() == old(self).infallible(),
            final(self).dim() == old(self).dim(),
            final(self).records() == old(self).records(),
            final(self).aligned() == old(self).aligned(),
            final(self).fits_memory() == old(self).fits_memory(),
            r matches Ok(Some(v)) ==> exists|k: int|
                0 <= k < old(self).records().len() && #[trigger] old(self).records()[k] == (
                id,
                v@,
            ),
            r matches Ok(None) && ids_ascending(old(self).records()) ==> !holds_id(
                old(self).records(),
                id,
            ),
            old(self).infallible() && old(self).aligned() && ids_ascending(old(self).records())
                ==> if holds_id(old(self).records(), id) {
                if has_sentinel(vector_of(old(self).records(), id)) {
                    r is Err
                } else {
                    r matches Ok(Some(v)) && v@ == vector_of(old(self).records(), id)
                }
            } else {
                r matches Ok(None)
            },
    {
        let ghost recs = self.records();
        let k = match self.seek_item(id)? {
            None => return Ok(None),
            Some(k) => k,
        };
        proof {
            if ids_ascending(recs) {
                lemma_unique_id(recs, id, k as int);
            }
        }
        match self.read_vector(k) {
            Ok(v) => {
                assert(recs[k as int] == (id, v@));
                Ok(Some(v))
            },
            Err(vio::Error::EOF) => Err(
                Error::IO(missing_data(self.dim_size as u64 * vio::COMPONENT_BYTES)),
            ),
            Err(vio::Error::IO(e)) => Err(Error::IO(e)),
        }
    }

    /// The id of the last record, `None` on an empty store.
    fn seek_last_id(&mut self) -> (r: Result<Option<u32>, Error>)
        ensures
            final(self).content() == old(self).content(),
            final(self).infallible() == old(self).infallible(),
            final(self).dim_size == old(self).dim_size,
            final(self).data_section == old(self).data_section,
            r is Ok ==> old(self).aligned() && old(self).content().len() <= u64::MAX,
            r matches Ok(None) ==> old(self).records().len() == 0,
            r matches Ok(Some(i)) ==> old(self).records().len() > 0 && i == old(self).records().last().0,
            r matches Err(Error::Corrupted) ==> !old(self).aligned(),
            r is Err ==> r->Err_0 is IO || r->Err_0 is Corrupted,
            old(self).infallible() ==> (r is Ok <==> old(self).aligned()),
    {
        let n = self.seek_count()?;
        if n == 0 {
            return Ok(None);
        }
        let last = self.read_id(n - 1)?;
        Ok(Some(last))
    }

    /// Appends a record with the next id and the given components, and
    /// returns that id.
    #[verifier::spinoff_prover]
    #[verifier::rlimit(40)]
    pub fn push(&mut self, vector: &[u32]) -> (r: Result<u32, Error>)
        ensures
            final(self).dim() == old(self).dim(),
            final(self).infallible() == old(self).infallible(),
            (r is Err && r->Err_0 is Dimension) <==> vector@.len() != old(self).dim(),
            r matches Err(Error::Dimension(expected, actual)) ==> expected == old(self).dim()
                && actual == vector@.len(),
            r is Err && !(r->Err_0 is IO) ==> final(self).content() == old(self).content()
                && final(self).records() == old(self).records(),
            r matches Ok(id) ==> {
                &&& old(self).aligned()
                &&& id == next_id(old(self).records())
                &&& final(self).aligned()
                &&& final(self).records() == old(self).records().push((id, vector@))
            },
            r matches Err(Error::IdExhausted) ==> old(self).records().len() > 0 && old(self).records().last().0 == u32::MAX,
            r matches Err(Error::Corrupted) ==> !old(self).aligned(),
            r is Ok && ids_ascending(old(self).records()) ==> ids_ascending(final(self).records()),
            old(self).infallible() && old(self).aligned() && old(self).fits_memory()
                && vector@.len() == old(self).dim() && next_id(old(self).records()) <= u32::MAX
                ==> r is Ok,
    {
        if vector.len() != self.dim_size as usize {
            return Err(Error::Dimension(self.dim_size, vector.len()));
        }
        let ghost recs = self.records();
        let new_id = match self.seek_last_id()? {
            None => 0,
            Some(i) => {
                if i == u32::MAX {
                    return Err(Error::IdExhausted);
                }
                i + 1
            },
        };
        if self.unit_size_bytes() > isize::MAX as u64 {
            return Err(Error::IO(out_of_memory()));
        }
        let ghost c = self.fd.content();
        if let Err(e) = self.fd.seek_end() {
            return Err(Error::IO(e));
        }
        let id_bytes = write_be_u32(new_id);
        if let Err(e) = self.fd.write_all(id_bytes.as_slice()) {
            return Err(Error::IO(e));
        }
        assert(self.fd.content() =~= c + u32_bytes(new_id));
        if let Err(e) = vio::write(vector, &mut self.fd) {
            return Err(Error::IO(e));
        }
        proof {
            let b = u32_bytes(new_id) + vector_bytes(vector@);
            assert(self.fd.content() =~= c + b);
            lemma_u32_round_trip(new_id);
            lemma_decode_vector_bytes(vector@);
            crate::vio::lemma_vector_bytes(vector@);
            assert(b.subrange(0, 4) =~= u32_bytes(new_id));
            assert(b.subrange(4, b.len() as int) =~= vector_bytes(vector@));
            lemma_append_record(c, self.data_section as int, self.dim_size, b);
            if ids_ascending(recs) {
                lemma_push_keeps_order(recs, vector@);
            }
        }
        Ok(new_id)
    }

    /// Removes the record that holds `id` and returns its components;
    /// `None` where no record holds it. The records after it move back by
    /// one record and the stream is shortened by one record.
    pub fn remove(&mut self, id: u32) -> (r: Result<Option<Vec<u32>>, Error>)
        ensures
            final(self).dim() == old(self).dim(),
            final(self).infallible() == old(self).infallible(),
            !(r is Ok && r->Ok_0 is Some) && !(r is Err && r->Err_0 is IO) ==> final(self).content()
                == old(self).content() && final(self).records() == old(self).records(),
            r matches Ok(Some(v)) ==> {
                &&& old(self).aligned()
                &&& final(self).aligned()
                &&& exists|k: int|
                    0 <= k < old(self).records().len() && #[trigger] old(self).records()[k] == (
                    id,
                    v@,
                ) && final(self).records() == old(self).records().remove(k)
            },
            r matches Ok(Some(v)) ==> (ids_ascending(old(self).records()) ==> {
                &&& v@ == vector_of(old(self).records(), id)
                &&& ids_ascending(final(self).records())
                &&& !holds_id(final(self).records(), id)
            }),
            r matches Ok(None) && ids_ascending(old(self).records()) ==> !holds_id(
                old(self).records(),
                id,
            ),
            r matches Err(Error::Corrupted) ==> !old(self).aligned() || !ids_ascending(
                old(self).records(),
            ),
            old(self).infallible() && old(self).aligned() && old(self).fits_memory()
                && ids_ascending(old(self).records()) ==> if holds_id(old(self).records(), id) {
                if has_sentinel(vector_of(old(self).records(), id)) {
                    r matches Err(Error::Parse())
                } else {
                    r matches Ok(Some(v)) && v@ == vector_of(old(self).records(), id)
                }
            } else {
                r matches Ok(None)
            },
    {
        let ghost c = self.fd.content();
        let ghost recs = self.records();
        let ghost ds = self.data_section as int;
        let ghost unit = unit_of(self.dim_size);
        let k = match self.seek_item(id)? {
            None => return Ok(None),
            Some(k) => k,
        };
        proof {
            if ids_ascending(recs) {
                lemma_unique_id(recs, id, k as int);
            }
            lemma_aligned_count(c, ds, self.dim_size);
            lemma_slot_in_bounds(k as int, recs.len() as int, unit);
        }
        let vector = match self.read_vector(k) {
            Ok(v) => v,
            Err(vio::Error::EOF) => return Err(Error::Parse()),
            Err(vio::Error::IO(e)) => return Err(Error::IO(e)),
        };
        let unit_size = self.unit_size_bytes();
        let available = match self.fd.seek_end() {
            Ok(n) => n,
            Err(e) => return Err(Error::IO(e)),
        };
        let start = self.data_section + k * unit_size;
        let next = start + unit_size;
        if available - next > usize::MAX as u64 || unit_size > isize::MAX as u64 {
            return Err(Error::IO(out_of_memory()));
        }
        if let Err(e) = self.fd.seek_start(next) {
            return Err(Error::IO(e));
        }
        let buffer: u64 = if 10 * unit_size < 4096 {
            10 * unit_size
        } else {
            4096
        };
        if let Err(e) = move_content(
            &mut self.fd,
            (available - next) as usize,
            -(unit_size as isize),
            buffer as usize,
        ) {
            return Err(Error::IO(e));
        }
        if let Err(e) = self.fd.set_len(available - unit_size) {
            return Err(Error::IO(e));
        }
        proof {
            let c2 = c.subrange(0, start as int) + c.subrange(next as int, c.len() as int);
            assert(self.fd.content() =~= c2);
            lemma_remove_record(c, ds, self.dim_size, k as int);
            if ids_ascending(recs) {
                lemma_remove_keeps_order(recs, k as int);
            }
            assert(recs[k as int] == (id, vector@));
        }
        Ok(Some(vector))
    }
}

/// The layers of a layer section at `q`, each a level and its edges, and the
/// offset after the section's terminator.
pub open spec fn layers_from(c: Seq<u8>, q: int) -> Option<(Seq<(u32, Seq<Edge>)>, int)>
    decreases c.len() - q,
{
    if q < 0 || q + 4 > c.len() {
        None
    } else {
        let level = be_u32(c.subrange(q, q + 4)) as u32;
        if level == 0 {
            Some((Seq::empty(), q + 4))
        } else {
            match edges_from(c, q + 4) {
                Some((es, end)) => if end <= q || end > c.len() {
                    None
                } else {
                    match layers_from(c, end) {
                        Some((ls, fin)) => Some((seq![(level, es)] + ls, fin)),
                        None => None,
                    }
                },
                None => None,
            }
        }
    }
}

/// Whether each layer has the level and the graph of the parsed layer at
/// its position.
pub open spec fn layers_match(layers: Seq<HnswLayer>, ls: Seq<(u32, Seq<Edge>)>) -> bool {
    &&& layers.len() == ls.len()
    &&& forall|i: int|
        0 <= i < ls.len() ==> #[trigger] layers[i].spec_level() == ls[i].0 && built_from(
            layers[i].spec_graph(),
            ls[i].1,
        )
}

/// Whether no edge of any layer names the largest `u32`.
pub open spec fn layers_in_range(ls: Seq<(u32, Seq<Edge>)>) -> bool {
    forall|i: int| 0 <= i < ls.len() ==> ids_in_range(#[trigger] ls[i].1)
}

proof fn lemma_edges_end(c: Seq<u8>, p: int)
    requires
        edges_from(c, p) is Some,
    ensures
        p + 8 <= edges_from(c, p)->Some_0.1 <= c.len(),
    decreases c.len() - p,
{
    let a = be_u32(c.subrange(p, p + 4)) as u32;
    let b = be_u32(c.subrange(p + 4, p + 8)) as u32;
    if !(a == 0 && b == 0) {
        lemma_edges_end(c, p + 12);
    }
}

/// A database: its name, the index layers read from its file, the records
/// and a cache of the vectors already fetched or written.
pub struct Database<S: RandomAccess> {
    name: String,
    layers: Vec<HnswLayer>,
    loaded_vectors: HashMap<u32, Vec<u32>>,
    handle: VectorHandle<S>,
}

impl<S: RandomAccess> Database<S> {
    pub closed spec fn spec_name(&self) -> Seq<char> {
        self.name@
    }

    pub closed spec fn spec_layers(&self) -> Seq<HnswLayer> {
        self.layers@
    }

    pub closed spec fn dim(&self) -> u32 {
        self.handle.dim()
    }

    pub closed spec fn content(&self) -> Seq<u8> {
        self.handle.content()
    }

    pub closed spec fn infallible(&self) -> bool {
        self.handle.infallible()
    }

    /// The offset of the first record.
    pub closed spec fn data_start(&self) -> int {
        self.handle.data_start()
    }

    /// Whether the data section holds whole records.
    pub open spec fn aligned(&self) -> bool {
        aligned(self.content(), self.data_start(), self.dim())
    }

    /// The records in file order.
    pub open spec fn records(&self) -> Seq<Record> {
        records_of(self.content(), self.data_start(), self.dim())
    }

    /// The stream is small enough for every offset to be a `usize`.
    pub open spec fn fits_memory(&self) -> bool {
        self.content().len() + unit_of(self.dim()) <= isize::MAX
    }

    /// The ids that the cache holds.
    pub closed spec fn cached(&self) -> Set<u32> {
        self.loaded_vectors@.dom()
    }

    /// Every cached vector is the one a record holds under its id.
    pub closed spec fn wf(&self) -> bool {
        forall|id: u32|
            #[trigger] self.loaded_vectors@.contains_key(id) ==> exists|k: int|
                0 <= k < self.records().len() && #[trigger] self.records()[k] == (
                    id,
                    self.loaded_vectors@[id]@,
                )
    }

    proof fn lemma_wf_kept(a: &Database<S>, b: &Database<S>)
        requires
            a.wf(),
            b.loaded_vectors@ == a.loaded_vectors@,
            b.records() == a.records(),
        ensures
            b.wf(),
    {
        assert forall|id: u32| #[trigger] b.loaded_vectors@.contains_key(id) implies exists|k: int|
            0 <= k < b.records().len() && #[trigger] b.records()[k] == (
                id,
                b.loaded_vectors@[id]@,
            ) by {
            let k = choose|k: int|
                0 <= k < a.records().len() && #[trigger] a.records()[k] == (id, a.loaded_vectors@[id]@);
            assert(b.records()[k] == (id, b.loaded_vectors@[id]@));
        }
    }

    /// Opens a database from a stream positioned at its header: reads the
    /// header, then layers up to the terminator of the layer section.
    #[verifier::spinoff_prover]
    #[verifier::rlimit(60)]
    pub fn read(name: &String, fd: S) -> (r: Result<Database<S>, Error>)
        requires
            0 <= fd.cursor(),
        ensures
            r matches Ok(db) ==> {
                let c = fd.content();
                let p = fd.cursor();
                let h = parse_header(c.subrange(p, p + HEADER_BYTES));
                &&& db.wf()
                &&& db.cached() == Set::<u32>::empty()
                &&& db.spec_name() == name@
                &&& p + HEADER_BYTES <= c.len()
                &&& c.subrange(p, p + 18) == product()
                &&& db.dim() == h.dim_size
                &&& db.content() == c
                &&& db.infallible() == fd.infallible()
                &&& db.records() == records_of(c, h.data_section as int, h.dim_size)
                &&& db.aligned() == aligned(c, h.data_section as int, h.dim_size)
                &&& layers_from(c, p + HEADER_BYTES) is Some
                &&& layers_match(db.spec_layers(), layers_from(c, p + HEADER_BYTES)->Some_0.0)
            },
            r matches Err(Error::Header(header::Error::Parse(_))) ==> fd.content().subrange(
                fd.cursor(),
                fd.cursor() + 18,
            ) != product(),
            fd.infallible() && fd.cursor() + HEADER_BYTES <= fd.content().len()
                && fd.content().subrange(fd.cursor(), fd.cursor() + 18) == product()
                && layers_from(fd.content(), fd.cursor() + HEADER_BYTES) is Some
                && layers_in_range(layers_from(fd.content(), fd.cursor() + HEADER_BYTES)->Some_0.0)
                ==> r is Ok,
    {
        broadcast use vstd::std_specs::hash::group_hash_axioms;

        let mut stream = fd;
        let ghost inf = stream.infallible();
        let ghost c = stream.content();
        let ghost p = stream.cursor();
        let header = match header::read(&mut stream) {
            Ok(h) => h,
            Err(e) => return Err(Error::Header(e)),
        };
        let ghost start = stream.cursor();
        let ghost mut parsed: Seq<(u32, Seq<Edge>)> = Seq::empty();
        let mut layers: Vec<HnswLayer> = Vec::new();
        loop
            invariant_except_break
                layers_from(c, start) == match layers_from(c, stream.cursor()) {
                    Some((rest, fin)) => Some((parsed + rest, fin)),
                    None => None,
                },
                stream.infallible() && layers_from(c, start) is Some && layers_in_range(
                    layers_from(c, start)->Some_0.0,
                ) ==> layers_from(c, stream.cursor()) is Some && layers_in_range(
                    layers_from(c, stream.cursor())->Some_0.0,
                ),
            invariant
                stream.content() == c,
                stream.infallible() == inf,
                c == fd.content(),
                p == fd.cursor(),
                inf == fd.infallible(),
                start == p + HEADER_BYTES,
                0 <= stream.cursor() <= c.len() || stream.cursor() == start,
                0 <= stream.cursor(),
                layers@.len() == parsed.len(),
                forall|i: int|
                    0 <= i < parsed.len() ==> #[trigger] layers@[i].spec_level() == parsed[i].0
                        && built_from(layers@[i].spec_graph(), parsed[i].1),
            ensures
                stream.content() == c,
                stream.infallible() == inf,
                layers_from(c, start) is Some,
                layers_from(c, start)->Some_0.0 == parsed,
                layers@.len() == parsed.len(),
                forall|i: int|
                    0 <= i < parsed.len() ==> #[trigger] layers@[i].spec_level() == parsed[i].0
                        && built_from(layers@[i].spec_graph(), parsed[i].1),
            decreases c.len() - stream.cursor() + 1,
        {
            let ghost q = stream.cursor();
            match layer::read(&mut stream) {
                Ok(l) => {
                    proof {
                        let es = edges_from(c, q + 4)->Some_0.0;
                        let end = edges_from(c, q + 4)->Some_0.1;
                        lemma_edges_end(c, q + 4);
                        let level = be_u32(c.subrange(q, q + 4)) as u32;
                        match layers_from(c, end) {
                            Some((rest, fin)) => {
                                assert(layers_from(c, q) == Some((seq![(level, es)] + rest, fin)));
                                assert(parsed + (seq![(level, es)] + rest) =~= parsed.push(
                                    (level, es),
                                ) + rest);
                                if layers_in_range(layers_from(c, q)->Some_0.0) {
                                    assert forall|i: int| 0 <= i < rest.len() implies ids_in_range(
                                        #[trigger] rest[i].1,
                                    ) by {
                                        assert((seq![(level, es)] + rest)[i + 1] == rest[i]);
                                    }
                                }
                            },
                            None => {},
                        }
                        parsed = parsed.push((level, es));
                    }
                    layers.push(l);
                },
                Err(vio::Error::IO(e)) => {
                    proof {
                        if stream.infallible() && layers_from(c, start) is Some && layers_in_range(
                            layers_from(c, start)->Some_0.0,
                        ) {
                            let level = be_u32(c.subrange(q, q + 4)) as u32;
                            lemma_be_u32_bound(c.subrange(q, q + 4));
                            if level != 0 {
                                let ls = layers_from(c, q)->Some_0.0;
                                assert(ls[0].1 == edges_from(c, q + 4)->Some_0.0);
                                assert(ids_in_range(ls[0].1));
                            }
                        }
                    }
                    return Err(Error::IO(e));
                },
                Err(vio::Error::EOF) => {
                    proof {
                        assert(parsed + Seq::<(u32, Seq<Edge>)>::empty() =~= parsed);
                    }
                    break;
                },
            }
        }
        let handle = VectorHandle::new(&header, stream);
        let db = Database { name: name.clone(), layers, loaded_vectors: HashMap::new(), handle };
        assert(layers_match(db.spec_layers(), parsed));
        Ok(db)
    }

    /// Creates a database on a stream: writes a fresh header at the
    /// stream's position; no layers, an empty cache.
    pub fn new(name: &str, dim_size: u32, fd: S) -> (r: Result<Database<S>, Error>)
        requires
            0 <= fd.cursor(),
        ensures
            r matches Ok(db) ==> {
                let c = overwrite(fd.content(), fd.cursor(), header::header_bytes(DbHeader::new_spec(dim_size)));
                &&& db.wf()
                &&& db.cached() == Set::<u32>::empty()
                &&& db.spec_name() == name@
                &&& db.spec_layers().len() == 0
                &&& db.dim() == dim_size
                &&& db.content() == c
                &&& db.infallible() == fd.infallible()
                &&& db.records() == records_of(c, HEADER_BYTES as int, dim_size)
                &&& db.aligned() == aligned(c, HEADER_BYTES as int, dim_size)
            },
            r matches Ok(db) ==> (fd.content().len() == 0 && fd.cursor() == 0 ==> db.records().len()
                == 0 && db.aligned()),
            r is Err ==> r->Err_0 is Header,
            fd.infallible() && fd.cursor() + HEADER_BYTES <= usize::MAX ==> r is Ok,
    {
        broadcast use vstd::std_specs::hash::group_hash_axioms;

        let mut stream = fd;
        let header = DbHeader::new(dim_size);
        if let Err(e) = header.write(&mut stream) {
            return Err(Error::Header(e));
        }
        proof {
            header::lemma_header_round_trip(header);
            if fd.content().len() == 0 && fd.cursor() == 0 {
                assert(stream.content() =~= header::header_bytes(header));
                lemma_multiple(0, unit_of(dim_size));
            }
        }
        let handle = VectorHandle::new(&header, stream);
        Ok(Database { name: name.to_owned(), layers: Vec::new(), loaded_vectors: HashMap::new(), handle })
    }

    /// The stream that holds the database.
    pub fn stream(&self) -> (r: &S)
        ensures
            r.content() == self.content(),
    {
        &self.handle.fd
    }

    pub fn name(&self) -> (r: &String)
        ensures
            r@ == self.spec_name(),
    {
        &self.name
    }

    pub fn layers(&self) -> (r: &Vec<HnswLayer>)
        ensures
            r@ == self.spec_layers(),
    {
        &self.layers
    }

    /// The number of records.
    pub fn count(&mut self) -> (r: Result<u64, Error>)
        requires
            old(self).wf(),
        ensures
            final(self).wf(),
            final(self).records() == old(self).records(),
            final(self).content() == old(self).content(),
            final(self).aligned() == old(self).aligned(),
            final(self).infallible() == old(self).infallible(),
            final(self).fits_memory() == old(self).fits_memory(),
            final(self).dim() == old(self).dim(),
            final(self).cached() == old(self).cached(),
            r is Ok ==> old(self).aligned() && r->Ok_0 == old(self).records().len(),
            old(self).infallible() ==> (r is Ok <==> old(self).aligned()),
    {
        let r = self.handle.count();
        proof {
            Self::lemma_wf_kept(old(self), self);
        }
        r
    }

    /// The vector stored under `id`: from the cache where it is there, else
    /// from the file, and then kept in the cache.
    pub fn get(&mut self, id: u32) -> (r: Result<Option<Vec<u32>>, Error>)
        requires
            old(self).wf(),
        ensures
            final(self).wf(),
            final(self).records() == old(self).records(),
            final(self).content() == old(self).content(),
            final(self).aligned() == old(self).aligned(),
            final(self).infallible() == old(self).infallible(),
            final(self).fits_memory() == old(self).fits_memory(),
            final(self).dim() == old(self).dim(),
            r matches Ok(Some(v)) ==> exists|k: int|
                0 <= k < old(self).records().len() && #[trigger] old(self).records()[k] == (id, v@),
            r matches Ok(Some(v)) ==> (ids_ascending(old(self).records()) ==> holds_id(
                old(self).records(),
                id,
            ) && v@ == vector_of(old(self).records(), id)),
            r matches Ok(None) ==> (ids_ascending(old(self).records()) ==> !holds_id(
                old(self).records(),
                id,
            )),
            old(self).infallible() && old(self).aligned() && ids_ascending(old(self).records())
                ==> if holds_id(old(self).records(), id) {
                if has_sentinel(vector_of(old(self).records(), id)) && !old(self).cached().contains(id) {
                    r is Err
                } else {
                    r matches Ok(Some(v)) && v@ == vector_of(old(self).records(), id)
                }
            } else {
                r matches Ok(None)
            },
    {
        broadcast use vstd::std_specs::hash::group_hash_axioms;

        let ghost recs = self.records();
        match self.loaded_vectors.get(&id) {
            Some(v) => {
                let out = v.clone();
                assert(out@ =~= v@);
                proof {
                    let k = choose|k: int| 0 <= k < recs.len() && #[trigger] recs[k] == (id, self.loaded_vectors@[id]@);
                    assert(recs[k] == (id, out@));
                    if ids_ascending(recs) {
                        lemma_unique_id(recs, id, k);
                    }
                    if ids_ascending(recs) && has_sentinel(vector_of(recs, id)) {
                        assert(recs[k].1 == vector_of(recs, id));
                    }
                }
                Ok(Some(out))
            },
            None => match self.handle.get(id) {
                Ok(Some(v)) => {
                    let kept = v.clone();
                    assert(kept@ =~= v@);
                    self.loaded_vectors.insert(id, kept);
                    proof {
                        let k = choose|k: int| 0 <= k < recs.len() && #[trigger] recs[k] == (id, v@);
                        if ids_ascending(recs) {
                            lemma_unique_id(recs, id, k);
                        }
                        assert forall|j: u32| #[trigger] self.loaded_vectors@.contains_key(j) implies exists|k: int|
                            0 <= k < self.records().len() && #[trigger] self.records()[k] == (
                                j,
                                self.loaded_vectors@[j]@,
                            ) by {
                            if j == id {
                                assert(self.records()[k] == (j, self.loaded_vectors@[j]@));
                            } else {
                                let k0 = choose|k0: int|
                                    0 <= k0 < recs.len() && #[trigger] recs[k0] == (
                                        j,
                                        old(self).loaded_vectors@[j]@,
                                    );
                                assert(self.records()[k0] == (j, self.loaded_vectors@[j]@));
                            }
                        }
                    }
                    Ok(Some(v))
                },
                Ok(None) => {
                    proof {
                        Self::lemma_wf_kept(old(self), self);
                    }
                    Ok(None)
                },
                Err(e) => {
                    proof {
                        Self::lemma_wf_kept(old(self), self);
                    }
                    Err(e)
                },
            },
        }
    }

    /// Appends a vector and returns its id; the vector is cached too.
    pub fn push(&mut self, vector: &[u32]) -> (r: Result<u32, Error>)
        requires
            old(self).wf(),
        ensures
            final(self).wf(),
            final(self).dim() == old(self).dim(),
            final(self).infallible() == old(self).infallible(),
            (r is Err && r->Err_0 is Dimension) <==> vector@.len() != old(self).dim(),
            r matches Err(Error::Dimension(expected, actual)) ==> expected == old(self).dim()
                && actual == vector@.len(),
            r is Err && !(r->Err_0 is IO) ==> final(self).content() == old(self).content()
                && final(self).records() == old(self).records(),
            r matches Ok(id) ==> {
                &&& old(self).aligned()
                &&& id == next_id(old(self).records())
                &&& final(self).aligned()
                &&& final(self).records() == old(self).records().push((id, vector@))
            },
            r matches Err(Error::IdExhausted) ==> old(self).records().len() > 0 && old(self).records().last().0
                == u32::MAX,
            r matches Err(Error::Corrupted) ==> !old(self).aligned(),
            r is Ok && ids_ascending(old(self).records()) ==> ids_ascending(final(self).records()),
            old(self).infallible() && old(self).aligned() && old(self).fits_memory()
                && vector@.len() == old(self).dim() && next_id(old(self).records()) <= u32::MAX
                ==> r is Ok,
    {
        broadcast use vstd::std_specs::hash::group_hash_axioms;

        let ghost recs = self.records();
        match self.handle.push(vector) {
            Ok(index) => {
                let kept = slice_to_vec(vector);
                self.loaded_vectors.insert(index, kept);
                proof {
                    let r2 = self.records();
                    assert(r2 == recs.push((index, vector@)));
                    assert forall|j: u32| #[trigger] self.loaded_vectors@.contains_key(j) implies exists|k: int|
                        0 <= k < r2.len() && #[trigger] r2[k] == (j, self.loaded_vectors@[j]@) by {
                        if j == index {
                            assert(r2[recs.len() as int] == (j, self.loaded_vectors@[j]@));
                        } else {
                            let k = choose|k: int| 0 <= k < recs.len() && #[trigger] recs[k] == (
                                j,
                                old(self).loaded_vectors@[j]@,
                            );
                            assert(r2[k] == recs[k]);
                        }
                    }
                }
                Ok(index)
            },
            Err(e) => {
                if let Error::IO(_) = &e {
                    self.loaded_vectors.clear();
                } else {
                    proof {
                        Self::lemma_wf_kept(old(self), self);
                    }
                }
                Err(e)
            },
        }
    }

    /// Removes the vector stored under `id` and returns it; `None` where no
    /// record holds it. The id leaves the cache.
    pub fn remove(&mut self, id: u32) -> (r: Result<Option<Vec<u32>>, Error>)
        requires
            old(self).wf(),
        ensures
            final(self).wf(),
            final(self).dim() == old(self).dim(),
            final(self).infallible() == old(self).infallible(),
            !(r is Ok && r->Ok_0 is Some) && !(r is Err && r->Err_0 is IO) ==> final(self).content()
                == old(self).content() && final(self).records() == old(self).records(),
            r matches Ok(Some(v)) ==> {
                &&& old(self).aligned()
                &&& final(self).aligned()
                &&& exists|k: int|
                    0 <= k < old(self).records().len() && #[trigger] old(self).records()[k] == (
                    id,
                    v@,
                ) && final(self).records() == old(self).records().remove(k)
            },
            r matches Ok(Some(v)) ==> (ids_ascending(old(self).records()) ==> {
                &&& v@ == vector_of(old(self).records(), id)
                &&& ids_ascending(final(self).records())
                &&& !holds_id(final(self).records(), id)
            }),
            r matches Ok(None) ==> (ids_ascending(old(self).records()) ==> !holds_id(
                old(self).records(),
                id,
            )),
            r matches Err(Error::Corrupted) ==> !old(self).aligned() || !ids_ascending(
                old(self).records(),
            ),
            old(self).infallible() && old(self).aligned() && old(self).fits_memory()
                && ids_ascending(old(self).records()) ==> if holds_id(old(self).records(), id) {
                if has_sentinel(vector_of(old(self).records(), id)) {
                    r matches Err(Error::Parse())
                } else {
                    r matches Ok(Some(v)) && v@ == vector_of(old(self).records(), id)
                }
            } else {
                r matches Ok(None)
            },
    {
        broadcast use vstd::std_specs::hash::group_hash_axioms;

        let ghost recs = self.records();
        match self.handle.remove(id) {
            Ok(Some(v)) => {
                self.loaded_vectors.remove(&id);
                proof {
                    let k = choose|k: int|
                        0 <= k < recs.len() && #[trigger] recs[k] == (id, v@) && self.records()
                            == recs.remove(k);
                    let r2 = self.records();
                    assert forall|j: u32| #[trigger] self.loaded_vectors@.contains_key(j) implies exists|i: int|
                        0 <= i < r2.len() && #[trigger] r2[i] == (j, self.loaded_vectors@[j]@) by {
                        let i0 = choose|i: int| 0 <= i < recs.len() && #[trigger] recs[i] == (
                            j,
                            old(self).loaded_vectors@[j]@,
                        );
                        assert(i0 != k);
                        if i0 < k {
                            assert(r2[i0] == recs[i0]);
                        } else {
                            assert(r2[i0 - 1] == recs[i0]);
                        }
                    }
                }
                Ok(Some(v))
            },
            Ok(None) => {
                proof {
                    Self::lemma_wf_kept(old(self), self);
                }
                Ok(None)
            },
            Err(e) => {
                if let Error::IO(_) = &e {
                    self.loaded_vectors.clear();
                } else {
                    proof {
                        Self::lemma_wf_kept(old(self), self);
                    }
                }
                Err(e)
            },
        }
    }

    /// Hands the stream's buffered writes on to the device; nothing is
    /// buffered by the database itself, so no bytes are counted.
    pub fn flush(&mut self) -> (r: Result<usize, Error>)
        requires
            old(self).wf(),
        ensures
            final(self).wf(),
            final(self).records() == old(self).records(),
            final(self).content() == old(self).content(),
            final(self).dim() == old(self).dim(),
            final(self).infallible() == old(self).infallible(),
            r matches Ok(n) ==> n == 0,
            old(self).infallible() ==> r is Ok,
    {
        let r = self.handle.flush();
        proof {
            Self::lemma_wf_kept(old(self), self);
        }
        match r {
            Ok(()) => Ok(0),
            Err(e) => Err(Error::IO(e)),
        }
    }
}

/// Round trip: in a store with ascending ids, pushing `v` under the next id
/// gives a store whose vector under that id is `v`, its ids still ascending.
pub proof fn lemma_round_trip(r: Seq<Record>, v: Seq<u32>)
    requires
        ids_ascending(r),
        next_id(r) <= u32::MAX,
    ensures
        ({
            let id = next_id(r) as u32;
            let r2 = r.push((id, v));
            &&& ids_ascending(r2)
            &&& holds_id(r2, id)
            &&& vector_of(r2, id) == v
        }),
{
    let id = next_id(r) as u32;
    let r2 = r.push((id, v));
    lemma_push_keeps_order(r, v);
    lemma_unique_id(r2, id, r.len() as int);
}

/// Pushing under the next id keeps ids ascending.
pub proof fn lemma_push_keeps_order(r: Seq<Record>, v: Seq<u32>)
    requires
        ids_ascending(r),
        next_id(r) <= u32::MAX,
    ensures
        ids_ascending(r.push((next_id(r) as u32, v))),
{
    let r2 = r.push((next_id(r) as u32, v));
    assert forall|i: int, j: int| 0 <= i < j < r2.len() implies #[trigger] r2[i].0 < #[trigger] r2[j].0 by {
        if j == r.len() && i < j - 1 {
            assert(r[i].0 < r[j - 1].0);
        }
    }
}

/// Removing a record keeps ids ascending, and its id is then gone.
pub proof fn lemma_remove_keeps_order(r: Seq<Record>, k: int)
    requires
        ids_ascending(r),
        0 <= k < r.len(),
    ensures
        ids_ascending(r.remove(k)),
        !holds_id(r.remove(k), r[k].0),
{
    let r2 = r.remove(k);
    assert forall|i: int, j: int| 0 <= i < j < r2.len() implies #[trigger] r2[i].0 < #[trigger] r2[j].0 by {
        let i0 = if i < k { i } else { i + 1 };
        let j0 = if j < k { j } else { j + 1 };
        assert(r[i0].0 < r[j0].0);
    }
    assert forall|j: int| 0 <= j < r2.len() implies #[trigger] r2[j].0 != r[k].0 by {
        let j0 = if j < k { j } else { j + 1 };
        if j0 < k {
            assert(r[j0].0 < r[k].0);
        } else {
            assert(r[k].0 < r[j0].0);
        }
    }
}

/// Id assignment: the next id of an empty store is 0; in a store with
/// ascending ids it is one more than the largest id stored.
pub proof fn lemma_next_id_is_max_plus_one(r: Seq<Record>)
    requires
        ids_ascending(r),
    ensures
        r.len() == 0 ==> next_id(r) == 0,
        r.len() > 0 ==> holds_id(r, (next_id(r) - 1) as u32),
        forall|k: int| 0 <= k < r.len() ==> #[trigger] r[k].0 < next_id(r),
{
    if r.len() > 0 {
        assert(r[r.len() - 1].0 == next_id(r) - 1);
        assert forall|k: int| 0 <= k < r.len() implies #[trigger] r[k].0 < next_id(r) by {
            if k < r.len() - 1 {
                assert(r[k].0 < r[r.len() - 1].0);
            }
        }
    }
}

} // verus!
