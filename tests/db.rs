use vectoriadb::db::{Database, Error};
use vectoriadb::header::{self, DbHeader};
use vectoriadb::stream::MemStream;

fn bits(v: &[f32]) -> Vec<u32> {
    v.iter().map(|x| x.to_bits()).collect()
}

fn fresh(dim: u32) -> Database<MemStream> {
    Database::new("mem", dim, MemStream::new()).unwrap()
}

#[test]
fn append_works() {
    let mut db = fresh(512);
    let vector = bits(&Vec::from_iter((0..512).map(|i| i as f32)));
    let victim_id = db.push(&vector).unwrap();
    assert_eq!(victim_id, 0);

    assert_eq!(db.count().unwrap(), 1);
    assert_eq!(db.get(victim_id).unwrap().unwrap(), vector);
}

#[test]
fn index_works() {
    let mut db = fresh(512);
    let vector = bits(&Vec::from_iter((0..512).map(|i| i as f32)));
    for _ in 0..200 {
        db.push(&vector).unwrap();
    }
    let victim_vect = bits(&Vec::from_iter((0..512).map(|_| 0f32)));
    let victim_id = db.push(&victim_vect).unwrap();
    for _ in 0..200 {
        db.push(&vector).unwrap();
    }

    let indexed = db.get(victim_id).unwrap().unwrap();
    assert_eq!(indexed, victim_vect);
}

#[test]
fn remove_works() {
    let mut db = fresh(4);
    for i in 1..=200 {
        let v = bits(&[i as f32, i as f32, i as f32, i as f32]);
        db.push(&v).unwrap();
    }
    assert_eq!(200, db.count().unwrap());

    let removed = db.remove(198).unwrap().unwrap();
    assert_eq!(removed, bits(&[199f32, 199f32, 199f32, 199f32]));
}

#[test]
fn remove_shrinks_count_by_one() {
    let mut db = fresh(4);
    for i in 1..=200 {
        let v = bits(&[i as f32; 4]);
        db.push(&v).unwrap();
    }
    db.remove(198).unwrap().unwrap();
    assert_eq!(199, db.count().unwrap());
    assert!(db.get(198).unwrap().is_none());
    assert_eq!(db.get(197).unwrap().unwrap(), bits(&[198f32; 4]));
    assert_eq!(db.get(199).unwrap().unwrap(), bits(&[200f32; 4]));
}

#[test]
fn ids_follow_the_last_one() {
    let mut db = fresh(2);
    assert_eq!(db.push(&bits(&[1.0, 2.0])).unwrap(), 0);
    assert_eq!(db.push(&bits(&[3.0, 4.0])).unwrap(), 1);
    assert_eq!(db.push(&bits(&[5.0, 6.0])).unwrap(), 2);
    // the next id follows the last stored id, so removing the last record
    // frees its id again
    db.remove(1).unwrap().unwrap();
    assert_eq!(db.push(&bits(&[7.0, 8.0])).unwrap(), 3);
    db.remove(3).unwrap().unwrap();
    assert_eq!(db.push(&bits(&[9.0, 9.0])).unwrap(), 3);
}

#[test]
fn removing_a_missing_id_changes_nothing() {
    let mut db = fresh(2);
    db.push(&bits(&[1.0, 2.0])).unwrap();
    db.push(&bits(&[3.0, 4.0])).unwrap();
    assert!(db.remove(7).unwrap().is_none());
    assert_eq!(db.count().unwrap(), 2);
    assert_eq!(db.get(1).unwrap().unwrap(), bits(&[3.0, 4.0]));
}

#[test]
fn get_on_empty_store_finds_nothing() {
    let mut db = fresh(3);
    assert!(db.get(0).unwrap().is_none());
    assert!(db.remove(0).unwrap().is_none());
    assert_eq!(db.count().unwrap(), 0);
}

#[test]
fn wrong_dimension_is_refused() {
    let mut db = fresh(3);
    db.push(&bits(&[1.0, 2.0, 3.0])).unwrap();
    match db.push(&bits(&[1.0, 2.0])) {
        Err(Error::Dimension(expected, actual)) => {
            assert_eq!(expected, 3);
            assert_eq!(actual, 2);
        }
        other => panic!("unexpected {:?}", other),
    }
    assert_eq!(db.count().unwrap(), 1);
}

#[test]
fn every_id_stays_retrievable_after_removals() {
    let mut db = fresh(1);
    for i in 0..50u32 {
        db.push(&[i]).unwrap();
    }
    for id in [0u32, 7, 8, 25, 49] {
        assert_eq!(db.remove(id).unwrap().unwrap(), vec![id]);
    }
    for i in 0..50u32 {
        let got = db.get(i).unwrap();
        if [0u32, 7, 8, 25, 49].contains(&i) {
            assert!(got.is_none());
        } else {
            assert_eq!(got.unwrap(), vec![i]);
        }
    }
    assert_eq!(db.push(&[99]).unwrap(), 49);
}

fn file_with(dim: u32, records: &[(u32, Vec<u32>)]) -> Vec<u8> {
    let mut fd = MemStream::new();
    DbHeader::new(dim).write(&mut fd).unwrap();
    let mut bytes = fd.into_bytes();
    bytes.extend_from_slice(&[0, 0, 0, 0]);
    for (id, v) in records {
        bytes.extend_from_slice(&id.to_be_bytes());
        for c in v {
            bytes.extend_from_slice(&c.to_be_bytes());
        }
    }
    bytes
}

fn open(bytes: Vec<u8>) -> Database<MemStream> {
    Database::read(&String::from("disk"), MemStream::from_bytes(bytes)).unwrap()
}

#[test]
fn read_opens_what_was_written() {
    let mut bytes = file_with(2, &[(3, vec![1, 2]), (9, vec![5, 6])]);
    // the layer section terminator sits before the records; move the data
    // section offset past it
    bytes[19..27].copy_from_slice(&35u64.to_be_bytes());
    let mut db = open(bytes);
    assert_eq!(db.name(), "disk");
    assert_eq!(db.count().unwrap(), 2);
    assert_eq!(db.get(9).unwrap().unwrap(), vec![5, 6]);
    assert_eq!(db.get(3).unwrap().unwrap(), vec![1, 2]);
    assert!(db.get(4).unwrap().is_none());
    assert_eq!(db.push(&[7, 7]).unwrap(), 10);
}

#[test]
fn out_of_order_ids_are_reported() {
    let mut bytes = file_with(1, &[(5, vec![1]), (2, vec![2]), (9, vec![3])]);
    bytes[19..27].copy_from_slice(&35u64.to_be_bytes());
    let mut db = open(bytes);
    assert!(matches!(db.get(1), Err(Error::Corrupted)));
}

#[test]
fn partial_record_is_reported() {
    let mut bytes = file_with(1, &[(0, vec![1])]);
    bytes[19..27].copy_from_slice(&35u64.to_be_bytes());
    bytes.push(0);
    let mut db = open(bytes);
    assert!(matches!(db.count(), Err(Error::Corrupted)));
    assert!(matches!(db.push(&[1]), Err(Error::Corrupted)));
}

#[test]
fn largest_id_ends_the_id_space() {
    let mut bytes = file_with(1, &[(u32::MAX, vec![1])]);
    bytes[19..27].copy_from_slice(&35u64.to_be_bytes());
    let mut db = open(bytes);
    assert!(matches!(db.push(&[2]), Err(Error::IdExhausted)));
    assert_eq!(db.count().unwrap(), 1);
}

#[test]
fn infinite_component_reads_as_missing_data() {
    let inf = f32::INFINITY.to_bits();
    let mut bytes = file_with(2, &[(0, vec![1, inf])]);
    bytes[19..27].copy_from_slice(&35u64.to_be_bytes());
    let mut db = open(bytes);
    assert!(matches!(db.get(0), Err(Error::IO(_))));
    assert!(matches!(db.remove(0), Err(Error::Parse())));
    assert_eq!(db.count().unwrap(), 1);
}

#[test]
fn foreign_file_is_refused() {
    let mut bytes = file_with(1, &[]);
    bytes[0] = b'X';
    match Database::read(&String::from("x"), MemStream::from_bytes(bytes)) {
        Err(Error::Header(header::Error::Parse(header::ParseErrorReason::ProductNameMismatch(s)))) => {
            assert_eq!(s, "Xectoriadb;version")
        }
        _ => panic!("expected a product name mismatch"),
    }
    let mut bytes = file_with(1, &[]);
    bytes[0] = 0xff;
    assert!(matches!(
        Database::read(&String::from("x"), MemStream::from_bytes(bytes)),
        Err(Error::Header(header::Error::Parse(header::ParseErrorReason::StringDecodeFailed)))
    ));
}

#[test]
fn short_header_is_an_io_error() {
    assert!(matches!(
        Database::read(&String::from("x"), MemStream::from_bytes(b"vectoria".to_vec())),
        Err(Error::Header(header::Error::IO(_)))
    ));
}

#[test]
fn flush_counts_nothing() {
    let mut db = fresh(1);
    assert_eq!(db.flush().unwrap(), 0);
}
