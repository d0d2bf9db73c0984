use dense::store::{ParseError, StoreValue};

#[test]
fn numbers_are_little_endian() {
    assert_eq!(0x12u8.to_bytes(), vec![0x12]);
    assert_eq!(0x1234u16.to_bytes(), vec![0x34, 0x12]);
    assert_eq!(0x1234_5678u32.to_bytes(), vec![0x78, 0x56, 0x34, 0x12]);
    assert_eq!(
        0x0102_0304_0506_0708u64.to_bytes(),
        vec![0x08, 0x07, 0x06, 0x05, 0x04, 0x03, 0x02, 0x01]
    );
    let mut wide = vec![0u8; 16];
    wide[0] = 1;
    wide[15] = 0x80;
    assert_eq!((1u128 | 1 << 127).to_bytes(), wide);
    assert_eq!(u8::from_bytes(&[7]), Ok(7));
    assert_eq!(u16::from_bytes(&[0x34, 0x12]), Ok(0x1234));
    assert_eq!(u32::from_bytes(&[0x78, 0x56, 0x34, 0x12]), Ok(0x1234_5678));
    assert_eq!(u64::from_bytes(&[8, 7, 6, 5, 4, 3, 2, 1]), Ok(0x0102_0304_0506_0708));
    assert_eq!(u128::from_bytes(&wide), Ok(1u128 | 1 << 127));
    assert_eq!(u8::size(), Some(1));
    assert_eq!(u16::size(), Some(2));
    assert_eq!(u32::size(), Some(4));
    assert_eq!(u64::size(), Some(8));
    assert_eq!(u128::size(), Some(16));
}

#[test]
fn numbers_of_the_wrong_width_are_refused() {
    assert_eq!(u8::from_bytes(&[]), Err(ParseError));
    assert_eq!(u8::from_bytes(&[1, 2]), Err(ParseError));
    assert_eq!(u16::from_bytes(&[1]), Err(ParseError));
    assert_eq!(u32::from_bytes(&[1, 2, 3, 4, 5]), Err(ParseError));
    assert_eq!(u64::from_bytes(&[1, 2, 3, 4]), Err(ParseError));
    assert_eq!(u128::from_bytes(&[0; 15]), Err(ParseError));
}

#[test]
fn strings_are_utf8() {
    assert_eq!(String::from("héllo").to_bytes(), vec![b'h', 0xc3, 0xa9, b'l', b'l', b'o']);
    assert_eq!(String::from_bytes(&[b'h', 0xc3, 0xa9]), Ok(String::from("hé")));
    assert_eq!(String::from_bytes(&[]), Ok(String::new()));
    assert_eq!(String::from_bytes(&[0xff, 0xfe]), Err(ParseError));
    assert_eq!(String::from_bytes(&[0xc3]), Err(ParseError));
    assert_eq!(String::size(), None);
}

#[test]
fn vectors_join_their_values() {
    assert_eq!(vec![1u16, 0x0203, 0xffff].to_bytes(), vec![1, 0, 3, 2, 0xff, 0xff]);
    assert_eq!(Vec::<u32>::new().to_bytes(), Vec::<u8>::new());
    assert_eq!(Vec::<u16>::from_bytes(&[1, 0, 3, 2, 0xff, 0xff]), Ok(vec![1, 0x0203, 0xffff]));
    assert_eq!(Vec::<u16>::from_bytes(&[]), Ok(vec![]));
    assert_eq!(Vec::<u16>::from_bytes(&[1, 0, 3]), Err(ParseError));
    assert_eq!(Vec::<u64>::from_bytes(&[0; 12]), Err(ParseError));
    assert_eq!(Vec::<u8>::from_bytes(&[5, 6, 7]), Ok(vec![5, 6, 7]));
    assert_eq!(Vec::<u32>::size(), None);
    // values of no fixed width cannot be told apart again
    assert_eq!(
        vec![String::from("ab"), String::from("c")].to_bytes(),
        vec![b'a', b'b', b'c']
    );
    assert_eq!(Vec::<String>::from_bytes(&[b'a', b'b', b'c']), Err(ParseError));
    assert_eq!(Vec::<Vec<u8>>::from_bytes(&[1, 2]), Err(ParseError));
    let values = vec![3u64, u64::MAX, 0, 1 << 40];
    assert_eq!(Vec::<u64>::from_bytes(&values.clone().to_bytes()), Ok(values));
}

#[test]
fn signed_numbers_are_in_twos_complement() {
    assert_eq!((-1i8).to_bytes(), vec![0xff]);
    assert_eq!((-2i16).to_bytes(), vec![0xfe, 0xff]);
    assert_eq!(0x0102_0304i32.to_bytes(), vec![4, 3, 2, 1]);
    assert_eq!(i64::MIN.to_bytes(), vec![0, 0, 0, 0, 0, 0, 0, 0x80]);
    assert_eq!((-1i128).to_bytes(), vec![0xff; 16]);
    assert_eq!(i8::from_bytes(&[0x80]), Ok(i8::MIN));
    assert_eq!(i16::from_bytes(&[0xfe, 0xff]), Ok(-2));
    assert_eq!(i32::from_bytes(&[4, 3, 2, 1]), Ok(0x0102_0304));
    assert_eq!(i64::from_bytes(&[0, 0, 0, 0, 0, 0, 0, 0x80]), Ok(i64::MIN));
    assert_eq!(i128::from_bytes(&[0xff; 16]), Ok(-1));
    assert_eq!(i16::from_bytes(&[1]), Err(ParseError));
    assert_eq!(i64::from_bytes(&[0; 9]), Err(ParseError));
    assert_eq!(i8::size(), Some(1));
    assert_eq!(i128::size(), Some(16));
    for v in [i32::MIN, -77, 0, 1, i32::MAX] {
        assert_eq!(i32::from_bytes(&v.to_bytes()), Ok(v));
    }
}

#[test]
fn machine_words_take_eight_bytes() {
    assert_eq!(0x0102usize.to_bytes(), vec![2, 1, 0, 0, 0, 0, 0, 0]);
    assert_eq!((-2isize).to_bytes(), vec![0xfe, 0xff, 0xff, 0xff, 0xff, 0xff, 0xff, 0xff]);
    assert_eq!(usize::from_bytes(&[2, 1, 0, 0, 0, 0, 0, 0]), Ok(0x0102));
    assert_eq!(isize::from_bytes(&[0xfe, 0xff, 0xff, 0xff, 0xff, 0xff, 0xff, 0xff]), Ok(-2));
    assert_eq!(usize::from_bytes(&[1, 0, 0, 0]), Err(ParseError));
    assert_eq!(isize::from_bytes(&[]), Err(ParseError));
    assert_eq!(usize::size(), Some(8));
    assert_eq!(isize::size(), Some(8));
    assert_eq!(vec![1usize, 2].to_bytes().len(), 16);
    assert_eq!(Vec::<isize>::from_bytes(&(vec![-1isize, 5].to_bytes())), Ok(vec![-1, 5]));
}
