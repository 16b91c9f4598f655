use crate::db;
use std::io;
use vstd::prelude::*;
use vstd::string::StringSliceAdditionalSpecFns;

verus! {

#[derive(Debug)]
pub enum Error {
    NameConflict(String),
    IO(io::Error),
    Database(db::Error),
}

pub const SEPARATOR: u8 = 0x2f;

/// `root` joined with `name` as a Unix path: an absolute `name` replaces
/// the root; otherwise a separator goes between them unless `root` is empty
/// or already ends with one.
pub open spec fn join_path(root: Seq<u8>, name: Seq<u8>) -> Seq<u8> {
    if name.len() > 0 && name[0] == SEPARATOR {
        name
    } else if root.len() == 0 || root.last() == SEPARATOR {
        root + name
    } else {
        root.push(SEPARATOR) + name
    }
}

/// The bytes of a database's file name: its name and the `.db` suffix.
pub open spec fn file_name(name: Seq<u8>) -> Seq<u8> {
    name + seq![0x2eu8, 0x64, 0x62]
}

/// Databases kept as `<name>.db` files under one directory.
pub struct FsDbHandle {
    root_dir: Vec<u8>,
}

fn append(out: &mut Vec<u8>, bytes: &[u8])
    ensures
        final(out)@ == old(out)@ + bytes@,
{
    let mut i: usize = 0;
    while i < bytes.len()
        invariant
            0 <= i <= bytes@.len(),
            out@ == old(out)@ + bytes@.subrange(0, i as int),
        decreases bytes@.len() - i,
    {
        out.push(bytes[i]);
        i = i + 1;
        assert(out@ =~= old(out)@ + bytes@.subrange(0, i as int));
    }
    assert(bytes@.subrange(0, i as int) =~= bytes@);
}

impl FsDbHandle {
    pub closed spec fn root(&self) -> Seq<u8> {
        self.root_dir@
    }

    /// A handle on the directory whose path has these bytes.
    pub fn new(root_dir: &[u8]) -> (r: FsDbHandle)
        ensures
            r.root() == root_dir@,
    {
        let mut root: Vec<u8> = Vec::new();
        append(&mut root, root_dir);
        assert(root@ =~= root_dir@);
        FsDbHandle { root_dir: root }
    }

    /// The path, as bytes, of the file that holds the database `db_name`.
    pub fn get_underlying_file(&self, db_name: &str) -> (r: Vec<u8>)
        ensures
            r@ == join_path(self.root(), file_name(db_name.spec_bytes())),
    {
        let name = db_name.as_bytes();
        let mut file: Vec<u8> = Vec::new();
        append(&mut file, name);
        file.push(0x2e);
        file.push(0x64);
        file.push(0x62);
        assert(file@ =~= file_name(name@));
        let mut out: Vec<u8> = Vec::new();
        if file.len() > 0 && file[0] == SEPARATOR {
            return file;
        }
        append(&mut out, self.root_dir.as_slice());
        if !(self.root_dir.len() == 0 || self.root_dir[self.root_dir.len() - 1] == SEPARATOR) {
            out.push(SEPARATOR);
        }
        append(&mut out, file.as_slice());
        out
    }
}

} // verus!
