use vectoriadb::ms::FsDbHandle;
use vectoriadb::shift::{cut_and_paste_backward, cut_and_paste_forward, move_content};
use vectoriadb::stream::{MemStream, RandomAccess};

fn stream_at(bytes: &[u8], pos: u64) -> MemStream {
    let mut s = MemStream::from_bytes(bytes.to_vec());
    s.seek_start(pos).unwrap();
    s
}

#[test]
fn backward_shift_overlapping() {
    let mut s = stream_at(b"abcdefghij", 4);
    cut_and_paste_backward(&mut s, 6, 3, 2).unwrap();
    assert_eq!(s.into_bytes(), b"aefghijhij".to_vec());
}

#[test]
fn forward_shift_overlapping() {
    let mut s = stream_at(b"abcdefghij", 1);
    cut_and_paste_forward(&mut s, 5, 2, 2).unwrap();
    assert_eq!(s.into_bytes(), b"abcbcdefij".to_vec());
}

#[test]
fn forward_shift_past_the_end_grows() {
    let mut s = stream_at(b"abcd", 2);
    move_content(&mut s, 2, 4, 3).unwrap();
    assert_eq!(s.into_bytes(), b"abcd\0\0cd".to_vec());
}

#[test]
fn move_content_picks_direction() {
    let mut s = stream_at(b"0123456789", 5);
    move_content(&mut s, 5, -5, 4096).unwrap();
    assert_eq!(s.into_bytes(), b"5678956789".to_vec());
}

#[test]
fn reading_past_the_end_fails() {
    let mut s = stream_at(b"abc", 2);
    assert!(s.read_exact(2).is_err());
    s.seek_start(0).unwrap();
    assert_eq!(s.read_exact(3).unwrap(), b"abc".to_vec());
}

#[test]
fn database_file_path() {
    let h = FsDbHandle::new(b"/var/db");
    assert_eq!(h.get_underlying_file(&String::from("vecs")), b"/var/db/vecs.db".to_vec());
    let h = FsDbHandle::new(b"/var/db/");
    assert_eq!(h.get_underlying_file("vecs"), b"/var/db/vecs.db".to_vec());
    assert_eq!(h.get_underlying_file("/tmp/x"), b"/tmp/x.db".to_vec());
    let h = FsDbHandle::new(b"");
    assert_eq!(h.get_underlying_file("v"), b"v.db".to_vec());
}
