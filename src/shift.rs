use crate::stream::{overwrite, RandomAccess};
use std::io;
use vstd::prelude::*;

verus! {

/// `c` with the `len` bytes found at `from` copied to `to`; moving no bytes
/// leaves `c` as it is.
pub open spec fn moved(c: Seq<u8>, from: int, len: int, to: int) -> Seq<u8> {
    if len == 0 {
        c
    } else {
        overwrite(c, to, c.subrange(from, from + len))
    }
}

/// Moves the `content_len` bytes at the stream's position `offset` bytes
/// further along, `buffer_size` bytes at a time, starting from the tail so
/// that no byte is overwritten before it has been read.
pub fn cut_and_paste_forward<S: RandomAccess>(
    fd: &mut S,
    content_len: usize,
    offset: usize,
    buffer_size: usize,
) -> (r: Result<(), io::Error>)
    requires
        buffer_size > 0,
        0 <= old(fd).cursor(),
        old(fd).cursor() + content_len <= old(fd).content().len(),
        old(fd).cursor() + content_len + offset <= u64::MAX,
    ensures
        final(fd).infallible() == old(fd).infallible(),
        r is Ok ==> final(fd).content() == moved(
            old(fd).content(),
            old(fd).cursor(),
            content_len as int,
            old(fd).cursor() + offset,
        ),
        old(fd).infallible() && old(fd).cursor() + content_len + offset <= usize::MAX ==> r is Ok,
{
    let ghost c = fd.content();
    let begin = fd.stream_position()?;
    let mut remaining: usize = content_len;
    while remaining > 0
        invariant
            0 <= remaining <= content_len,
            fd.infallible() == old(fd).infallible(),
            begin == old(fd).cursor(),
            begin + content_len <= c.len(),
            begin + content_len + offset <= u64::MAX,
            buffer_size > 0,
            remaining == content_len ==> fd.content() == c,
            remaining < content_len ==> fd.content() == overwrite(
                c,
                begin + offset + remaining,
                c.subrange(begin + remaining, begin + content_len),
            ),
        decreases remaining,
    {
        let read = if remaining > buffer_size {
            buffer_size
        } else {
            remaining
        };
        let src = begin + (remaining - read) as u64;
        let ghost before = fd.content();
        fd.seek_start(src)?;
        assert(fd.content().subrange(src as int, src + read) =~= c.subrange(
            src as int,
            src + read,
        ));
        let buf = fd.read_exact(read)?;
        fd.seek_start(src + offset as u64)?;
        fd.write_all(buf.as_slice())?;
        remaining = remaining - read;
        assert(fd.content() =~= overwrite(
            c,
            begin + offset + remaining,
            c.subrange(begin + remaining, begin + content_len),
        ));
    }
    Ok(())
}

/// Moves the `content_len` bytes at the stream's position `offset` bytes
/// back, `buffer_len` bytes at a time, starting from the head: the
/// destination trails the bytes still to be read.
pub fn cut_and_paste_backward<S: RandomAccess>(
    fd: &mut S,
    content_len: usize,
    offset: usize,
    buffer_len: usize,
) -> (r: Result<(), io::Error>)
    requires
        buffer_len > 0,
        offset <= old(fd).cursor(),
        old(fd).cursor() + content_len <= old(fd).content().len(),
        old(fd).cursor() + content_len <= u64::MAX,
    ensures
        final(fd).infallible() == old(fd).infallible(),
        r is Ok ==> final(fd).content() == moved(
            old(fd).content(),
            old(fd).cursor(),
            content_len as int,
            old(fd).cursor() - offset,
        ),
        old(fd).infallible() && old(fd).cursor() + content_len <= usize::MAX ==> r is Ok,
{
    let ghost c = fd.content();
    let begin = fd.stream_position()?;
    let mut done: usize = 0;
    assert(c =~= overwrite(c, begin - offset, c.subrange(begin as int, begin as int)));
    while done < content_len
        invariant
            0 <= done <= content_len,
            fd.infallible() == old(fd).infallible(),
            begin == old(fd).cursor(),
            offset <= begin,
            begin + content_len <= c.len(),
            begin + content_len <= u64::MAX,
            buffer_len > 0,
            fd.content() == overwrite(c, begin - offset, c.subrange(begin as int, begin + done)),
        decreases content_len - done,
    {
        let read = if content_len - done > buffer_len {
            buffer_len
        } else {
            content_len - done
        };
        let src = begin + done as u64;
        fd.seek_start(src)?;
        assert(fd.content().subrange(src as int, src + read) =~= c.subrange(
            src as int,
            src + read,
        ));
        let buf = fd.read_exact(read)?;
        fd.seek_start(src - offset as u64)?;
        fd.write_all(buf.as_slice())?;
        done = done + read;
        assert(fd.content() =~= overwrite(
            c,
            begin - offset,
            c.subrange(begin as int, begin + done),
        ));
    }
    Ok(())
}

/// Moves the `content_len` bytes at the stream's position by `offset`
/// bytes, toward the end when `offset` is positive and toward the start
/// when it is negative, in chunks of at most `buffer_size` bytes.
pub fn move_content<S: RandomAccess>(
    fd: &mut S,
    content_len: usize,
    offset: isize,
    buffer_size: usize,
) -> (r: Result<(), io::Error>)
    requires
        buffer_size > 0,
        offset > isize::MIN,
        0 <= old(fd).cursor() + offset,
        0 <= old(fd).cursor(),
        old(fd).cursor() + content_len <= old(fd).content().len(),
        old(fd).cursor() + content_len + offset <= u64::MAX,
        old(fd).cursor() + content_len <= u64::MAX,
    ensures
        final(fd).infallible() == old(fd).infallible(),
        r is Ok ==> final(fd).content() == moved(
            old(fd).content(),
            old(fd).cursor(),
            content_len as int,
            old(fd).cursor() + offset,
        ),
        old(fd).infallible() && old(fd).cursor() + content_len <= usize::MAX
            && old(fd).cursor() + content_len + offset <= usize::MAX ==> r is Ok,
{
    if offset >= 0 {
        cut_and_paste_forward(fd, content_len, offset as usize, buffer_size)
    } else {
        cut_and_paste_backward(fd, content_len, (-offset) as usize, buffer_size)
    }
}

} // verus!
