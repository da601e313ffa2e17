use std::io::{Cursor, Read};

use rhwp::serializer::mini_cfb::build_cfb;

fn read_stream(cfb_bytes: &[u8], name: &str) -> Vec<u8> {
    let mut file = cfb::CompoundFile::open_strict(Cursor::new(cfb_bytes.to_vec())).unwrap();
    let mut stream = file.open_stream(name).unwrap();
    let mut out = Vec::new();
    stream.read_to_end(&mut out).unwrap();
    out
}

#[test]
fn streams_read_back_in_any_size() {
    let small: Vec<u8> = (0..100u32).map(|i| i as u8).collect();
    let empty: Vec<u8> = Vec::new();
    let cutoff: Vec<u8> = vec![7u8; 4096];
    let large: Vec<u8> = (0..70000u32).map(|i| (i % 251) as u8).collect();
    let streams: [(&str, &[u8]); 4] = [("A", &empty), ("BB", &small), ("CCC", &cutoff), ("DDDD", &large)];
    let file = build_cfb(&streams).unwrap();
    assert_eq!(file.len() % 512, 0);
    assert_eq!(read_stream(&file, "/A"), empty);
    assert_eq!(read_stream(&file, "/BB"), small);
    assert_eq!(read_stream(&file, "/CCC"), cutoff);
    assert_eq!(read_stream(&file, "/DDDD"), large);
    let names: Vec<String> = cfb::CompoundFile::open(Cursor::new(file.clone()))
        .unwrap()
        .read_root_storage()
        .map(|e| e.name().to_string())
        .collect();
    assert_eq!(names.len(), 4);
}

#[test]
fn names_of_one_length_sort_case_blind() {
    let a: Vec<u8> = vec![1, 2, 3];
    let b: Vec<u8> = vec![4, 5];
    let streams: [(&str, &[u8]); 2] = [("abc", &a), ("ABD", &b)];
    let file = build_cfb(&streams).unwrap();
    assert_eq!(read_stream(&file, "/abc"), a);
    assert_eq!(read_stream(&file, "/ABD"), b);
}

#[test]
fn refuses_names_out_of_order() {
    let a: Vec<u8> = vec![1];
    let streams: [(&str, &[u8]); 2] = [("BB", &a), ("A", &a)];
    assert_eq!(build_cfb(&streams).unwrap_err(), "CFB 스트림 이름 순서가 잘못됐다");
    let same: [(&str, &[u8]); 2] = [("ab", &a), ("AB", &a)];
    assert_eq!(build_cfb(&same).unwrap_err(), "CFB 스트림 이름 순서가 잘못됐다");
}

#[test]
fn refuses_bad_names() {
    let a: Vec<u8> = vec![1];
    let empty_name: [(&str, &[u8]); 1] = [("", &a)];
    assert_eq!(build_cfb(&empty_name).unwrap_err(), "CFB 스트림 이름이 잘못됐다");
    let slash: [(&str, &[u8]); 1] = [("a/b", &a)];
    assert_eq!(build_cfb(&slash).unwrap_err(), "CFB 스트림 이름이 잘못됐다");
    let long = "x".repeat(32);
    let too_long: [(&str, &[u8]); 1] = [(long.as_str(), &a)];
    assert_eq!(build_cfb(&too_long).unwrap_err(), "CFB 스트림 이름이 잘못됐다");
    let hangul: [(&str, &[u8]); 1] = [("차트", &a)];
    assert_eq!(build_cfb(&hangul).unwrap_err(), "CFB 스트림 이름이 잘못됐다");
}

#[test]
fn refuses_files_past_the_header_difat() {
    let big = vec![0u8; 512 * 13844];
    let streams: [(&str, &[u8]); 1] = [("A", &big)];
    assert_eq!(build_cfb(&streams).unwrap_err(), "CFB 가 너무 크다");
}

#[test]
fn empty_file_has_only_the_root() {
    let streams: [(&str, &[u8]); 0] = [];
    let file = build_cfb(&streams).unwrap();
    assert_eq!(file.len(), 512 * 3);
    let f = cfb::CompoundFile::open_strict(Cursor::new(file)).unwrap();
    assert_eq!(f.read_root_storage().count(), 0);
}
