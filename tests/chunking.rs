use byte_chunks::{ByteChunked, SafeByteChunkedMut};
use std::mem::size_of_val;

#[test]
fn test_next_split_index() {
    let data: Vec<&str> = vec!["Hello", "There", "Best", "Worl", "D", "A"];
    let mut chunked = data.as_slice().byte_chunks(10);
    let next_index = chunked.next_split_index();

    assert_eq!(2, next_index);
}

#[test]
fn size_of_tests() {
    let string_ref = "test";
    assert_eq!(size_of_val(string_ref), 4);
}

#[test]
fn creates_chunks_static_str() {
    let data: Vec<&str> = vec!["Hello", "There", "Best", "Worl", "D", "A"];
    let mut chunk_iter = data.byte_chunks(10);
    if let Some(next) = chunk_iter.next() {
        println!("{:?}", next);
        assert_eq!(2, next.len());
    }

    if let Some(next) = chunk_iter.next() {
        println!("{:?}", next);
        assert_eq!(4, next.len());
    }

    let next = chunk_iter.next();
    assert_eq!(None, next);
}

#[test]
fn creates_chunks_string() {
    let data: Vec<String> = (vec!["Hello", "There", "Best", "Worl", "D", "A"])
        .iter()
        .map(|&x| String::from(x))
        .collect();

    let mut chunk_iter = data.byte_chunks(10);

    if let Some(next) = chunk_iter.next() {
        println!("{:?}", next);
        assert_eq!(2, next.len());
    }

    if let Some(next) = chunk_iter.next() {
        println!("{:?}", next);
        assert_eq!(4, next.len());
    }
    let next = chunk_iter.next();
    assert_eq!(None, next);
}

#[test]
fn empty_vec_returns_none() {
    let data: Vec<String> = Vec::new();

    let mut chunk_iter = data.byte_chunks(10);

    let next = chunk_iter.next();
    assert_eq!(None, next);
}

// "ラウトは難しいです！" is 30 bytes
#[test]
fn special_chars_are_sized_with_string() {
    let data: Vec<String> = vec!["ラウ", "トは", "難し", "いで", "す！"]
        .iter()
        .map(|&x| String::from(x))
        .collect();

    let mut chunk_iter = data.byte_chunks(12);

    if let Some(next) = chunk_iter.next() {
        println!("{:?}", next);
        assert_eq!(2, next.len());
    }

    if let Some(next) = chunk_iter.next() {
        println!("{:?}", next);
        assert_eq!(2, next.len());
    }

    if let Some(next) = chunk_iter.next() {
        println!("{:?}", next);
        assert_eq!(1, next.len());
    }
    let next = chunk_iter.next();
    assert_eq!(None, next);
}

#[test]
fn special_chars_are_sized_with_static_string() {
    let data = vec!["ラウ", "トは", "難し", "いで", "す！"];

    let mut chunk_iter = data.byte_chunks(12);

    if let Some(next) = chunk_iter.next() {
        println!("{:?}", next);
        assert_eq!(2, next.len());
    }

    if let Some(next) = chunk_iter.next() {
        println!("{:?}", next);
        assert_eq!(2, next.len());
    }

    if let Some(next) = chunk_iter.next() {
        println!("{:?}", next);
        assert_eq!(1, next.len());
    }
    let next = chunk_iter.next();
    assert_eq!(None, next);
}

#[test]
fn strings_that_are_too_large_are_skipped() {
    let mut data: Vec<String> = vec!["Hello", "There"]
        .iter()
        .map(|&x| String::from(x))
        .collect();
    let mut chunk_iter = data.byte_chunks_safe_mut(3);

    let next = chunk_iter.next();
    assert_eq!(None, next);
}
