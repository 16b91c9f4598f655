use vectoriadb::header::{self, DbHeader, CURRENT_VERSION, HEADER_BYTES};
use vectoriadb::layer;
use vectoriadb::stream::{MemStream, RandomAccess};
use vectoriadb::vio;

#[test]
fn read_works() {
    let mut bytes = Vec::new();
    for i in 1..=32 {
        bytes.extend_from_slice(&(1f32 / i as f32).to_bits().to_be_bytes());
    }
    let mut fd = MemStream::from_bytes(bytes);

    assert_eq!(
        Vec::from_iter((1..=32).map(|i| (1f32 / i as f32).to_bits())),
        vio::read(32, &mut fd).unwrap()
    )
}

#[test]
fn write_works() {
    let v = Vec::from_iter((1..=32).map(|i| (1f32 / i as f32).to_bits()));
    let mut fd = MemStream::new();
    assert_eq!(vio::write(&v, &mut fd).unwrap(), 128);
    fd.seek_start(0).unwrap();
    assert_eq!(v, vio::read(32, &mut fd).unwrap())
}

#[test]
fn vector_bytes_are_big_endian() {
    let mut fd = MemStream::new();
    vio::write(&[0x0102_0304, 0xa0b0_c0d0], &mut fd).unwrap();
    assert_eq!(fd.into_bytes(), vec![1, 2, 3, 4, 0xa0, 0xb0, 0xc0, 0xd0]);
}

#[test]
fn infinity_ends_a_vector() {
    let mut fd = MemStream::from_bytes(vec![0, 0, 0, 1, 0x7f, 0x80, 0, 0, 0, 0, 0, 2]);
    assert!(matches!(vio::read(3, &mut fd), Err(vio::Error::EOF)));
}

#[test]
fn short_vector_is_an_io_error() {
    let mut fd = MemStream::from_bytes(vec![0, 0, 0, 1, 0]);
    assert!(matches!(vio::read(2, &mut fd), Err(vio::Error::IO(_))));
}

#[test]
fn header_layout_is_exact() {
    let h = DbHeader::new(512);
    assert_eq!(h.version, CURRENT_VERSION);
    assert_eq!(h.data_section, HEADER_BYTES);
    let mut fd = MemStream::new();
    h.write(&mut fd).unwrap();
    let bytes = fd.into_bytes();
    let mut expected = b"vectoriadb;version".to_vec();
    expected.push(1);
    expected.extend_from_slice(&31u64.to_be_bytes());
    expected.extend_from_slice(&512u32.to_be_bytes());
    assert_eq!(bytes, expected);
}

#[test]
fn header_reads_back() {
    let h = DbHeader { version: 7, dim_size: 0x0102_0304, data_section: 0x0a0b_0c0d_0e0f_1011 };
    let mut fd = MemStream::new();
    h.write(&mut fd).unwrap();
    fd.seek_start(0).unwrap();
    assert_eq!(header::read(&mut fd).unwrap(), h);
}

fn layer_bytes(level: u32, edges: &[(u32, u32, f32)]) -> Vec<u8> {
    let mut b = level.to_be_bytes().to_vec();
    for (a, c, d) in edges {
        b.extend_from_slice(&a.to_be_bytes());
        b.extend_from_slice(&c.to_be_bytes());
        b.extend_from_slice(&d.to_bits().to_be_bytes());
    }
    b.extend_from_slice(&[0; 8]);
    b
}

#[test]
fn layer_builds_its_graph() {
    let mut fd = MemStream::from_bytes(layer_bytes(3, &[(0, 2, 1.5), (3, 1, 2.5), (2, 0, 9.0)]));
    let l = layer::read(&mut fd).unwrap();
    assert_eq!(l.level(), 3);
    let g = l.graph();
    assert_eq!(g.len(), 4);
    assert_eq!(g.get_vertice(2, 0).unwrap(), Some(1.5f32.to_bits()));
    assert_eq!(g.get_vertice(1, 3).unwrap(), Some(2.5f32.to_bits()));
    assert_eq!(g.get_vertice(1, 2).unwrap(), None);
    assert!(!l.is_empty());
}

#[test]
fn level_zero_ends_the_layers() {
    let mut fd = MemStream::from_bytes(vec![0, 0, 0, 0]);
    assert!(matches!(layer::read(&mut fd), Err(vio::Error::EOF)));
}

#[test]
fn database_reads_its_layers() {
    let mut fd = MemStream::new();
    DbHeader { version: 1, dim_size: 1, data_section: 0 }.write(&mut fd).unwrap();
    let mut bytes = fd.into_bytes();
    bytes.extend(layer_bytes(2, &[(0, 1, 4.0)]));
    bytes.extend(layer_bytes(1, &[(0, 1, 4.0), (1, 2, 5.0)]));
    bytes.extend_from_slice(&[0; 4]);
    let ds = bytes.len() as u64;
    bytes[19..27].copy_from_slice(&ds.to_be_bytes());
    bytes.extend_from_slice(&[0, 0, 0, 0, 0, 0, 0, 42]);
    let mut db = vectoriadb::db::Database::read(&String::from("l"), MemStream::from_bytes(bytes)).unwrap();
    let levels: Vec<u32> = db.layers().iter().map(|l| l.level()).collect();
    assert_eq!(levels, vec![2, 1]);
    assert_eq!(db.layers()[1].graph().len(), 3);
    assert_eq!(db.get(0).unwrap().unwrap(), vec![42]);
}

#[test]
fn layer_with_largest_node_is_refused() {
    let mut fd = MemStream::from_bytes(layer_bytes(1, &[(u32::MAX, 0, 1.0)]));
    assert!(matches!(layer::read(&mut fd), Err(vio::Error::IO(_))));
}
