use algo_kit::usc::USC;
use std::io::{BufRead, BufReader};

fn next<T, R>(reader: &mut R, usc: &mut USC) -> T
where
    T: std::str::FromStr,
    T::Err: std::fmt::Debug,
    R: BufRead,
{
    loop {
        if let Some(token) = usc.next_token() {
            return std::str::from_utf8(&token).unwrap().parse().unwrap();
        }
        let mut line = Vec::new();
        let n = reader.read_until(b'\n', &mut line).unwrap();
        assert!(n > 0, "input exhausted");
        usc.load_line(line);
    }
}

#[test]
fn read() {
    let buf = "1 2 3 4 5 4 3 2 1".as_bytes();
    let mut reader = BufReader::new(buf);
    let mut usc = USC::new();

    assert_eq!(next::<u8, _>(&mut reader, &mut usc), 1);
    assert_eq!(next::<u8, _>(&mut reader, &mut usc), 2);
    assert_eq!(next::<u8, _>(&mut reader, &mut usc), 3);
    assert_eq!(next::<u8, _>(&mut reader, &mut usc), 4);
    assert_eq!(next::<u8, _>(&mut reader, &mut usc), 5);
    assert_eq!(next::<u8, _>(&mut reader, &mut usc), 4);
    assert_eq!(next::<u8, _>(&mut reader, &mut usc), 3);
    assert_eq!(next::<u8, _>(&mut reader, &mut usc), 2);
    assert_eq!(next::<u8, _>(&mut reader, &mut usc), 1);
}

#[test]
fn read_across_line_break() {
    let mut reader = BufReader::new("1 2 3\n4 5".as_bytes());
    let mut usc = USC::new();
    let got: Vec<i64> = (0..5).map(|_| next::<i64, _>(&mut reader, &mut usc)).collect();
    assert_eq!(got, vec![1, 2, 3, 4, 5]);
}

#[test]
fn tokens_of_one_line() {
    let mut usc = USC::new();
    assert_eq!(usc.next_token(), None);
    usc.load_line(b"  ab\tc \r\n".to_vec());
    assert_eq!(usc.next_token(), Some(b"ab".to_vec()));
    assert_eq!(usc.next_token(), Some(b"c".to_vec()));
    assert_eq!(usc.next_token(), None);
    assert_eq!(usc.next_token(), None);
}

#[test]
fn blank_line_has_no_token() {
    let mut usc = USC::new();
    usc.load_line(b" \t\x0c\r\n".to_vec());
    assert_eq!(usc.next_token(), None);
}

#[test]
fn loading_drops_the_rest_of_the_line() {
    let mut usc = USC::new();
    usc.load_line(b"x y".to_vec());
    assert_eq!(usc.next_token(), Some(b"x".to_vec()));
    usc.load_line(b"z".to_vec());
    assert_eq!(usc.next_token(), Some(b"z".to_vec()));
    assert_eq!(usc.next_token(), None);
}
