use markup::{ReadError, SliceReader, StrReader};

#[test]
pub fn read_until() {
    let data = "Hello World";
    let mut reader = StrReader::new(data);
    let hello = reader.read_until(' ');
    assert_eq!(hello, Ok("Hello"));

    reader.skip(1);

    let world = reader.rest();
    assert_eq!(world, "World");
}

#[test]
pub fn read_until_delim_not_found() {
    let data = "Hello World";
    let mut slice_reader = SliceReader::new(data.as_bytes());
    assert_eq!(slice_reader.read_until(b'!'), Err(ReadError::DelimNotFound));
    assert_eq!(slice_reader.rest(), b"Hello World");
}

#[test]
fn str_reader_missing_delimiter_leaves_position() {
    let mut reader = StrReader::new("abc");
    assert_eq!(reader.read_until('>'), Err(ReadError::DelimNotFound));
    assert_eq!(reader.rest(), "abc");
    assert_eq!(reader.seek(), Some('a'));
}

#[test]
fn str_reader_skip_past_end_is_eof() {
    let mut reader = StrReader::new("ab");
    reader.skip(5);
    assert!(reader.is_eof());
    assert_eq!(reader.seek(), None);
    assert_eq!(reader.rest(), "");
    assert_eq!(reader.end(), 2);
    reader.reset();
    assert_eq!(reader.seek(), Some('a'));
}

#[test]
fn str_reader_skip_while_and_seek_until() {
    let mut reader = StrReader::new("   x<y");
    reader.skip_while(|c| c == ' ');
    assert_eq!(reader.seek(), Some('x'));
    assert_eq!(reader.seek_until('<'), Some("x"));
    assert_eq!(reader.seek_until('z'), None);
    assert_eq!(reader.rest(), "x<y");
}

#[test]
fn slice_reader_operations() {
    let data: [u8; 5] = [1, 2, 3, 4, 5];
    let mut reader = SliceReader::new(&data);
    assert_eq!(reader.end(), 5);
    assert_eq!(reader.seek(), Some(&1));
    reader.skip_while(|x| *x < 3);
    assert_eq!(reader.seek(), Some(&3));
    assert_eq!(reader.seek_until(5), Some(&data[2..4]));
    assert_eq!(reader.read_until(4), Ok(&data[2..3]));
    assert_eq!(reader.rest(), &data[3..]);
    reader.skip(10);
    assert!(reader.is_eof());
    assert_eq!(reader.rest(), &[] as &[u8]);
    reader.reset();
    assert_eq!(reader.rest(), &data[..]);
}
