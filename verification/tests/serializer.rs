//! Reply encoding against its exact wire forms.

use velocity::serializer::{str, bulk_str, int_reply, err, nil, str_arr};

#[test]
fn ser_test_str() {
    let expected = b"+OK\r\n".to_vec();
    let actual = str(b"OK");

    assert_eq!(expected, actual);
}

#[test]
fn ser_test_bulk_str() {
    let expected = b"$3\r\nfoo\r\n".to_vec();
    let actual = bulk_str(b"foo");

    assert_eq!(expected, actual);
}

#[test]
fn ser_test_int() {
    let expected = b":1000\r\n".to_vec();
    let actual = int_reply(1000);

    assert_eq!(expected, actual);
}

#[test]
fn ser_test_err() {
    let expected = b"-Error message\r\n".to_vec();
    let actual = err(b"Error message");

    assert_eq!(expected, actual);
}

#[test]
fn serializer_spec_test_str() {
    // Test with a regular string
    assert_eq!(str(b"Hello"), b"+Hello\r\n");

    // Test with an empty string
    assert_eq!(str(b""), b"+\r\n");

    // Test with a string containing special characters
    assert_eq!(str(b"Special\r\nChars"), b"+Special\r\nChars\r\n");

    // Test with a string containing escaped characters
    assert_eq!(str(b"\\r\\n"), b"+\\r\\n\r\n");
}

#[test]
fn serializer_spec_test_bulk_str() {
    // Test with a regular string
    assert_eq!(bulk_str(b"Hello"), b"$5\r\nHello\r\n");

    // Test with an empty string
    assert_eq!(bulk_str(b""), b"$0\r\n\r\n");

    // Test with a string containing special characters
    assert_eq!(bulk_str(b"Special\r\nChars"), b"$14\r\nSpecial\r\nChars\r\n");

    // Test with a string containing escaped characters
    assert_eq!(bulk_str(b"\\r\\n"), b"$4\r\n\\r\\n\r\n");
}

#[test]
fn test_str_arr() {
    // Test with an empty array
    assert_eq!(str_arr(&vec![]), b"*0\r\n");

    // Test with an array of strings
    assert_eq!(
        str_arr(&vec![b"One".to_vec(), b"Two".to_vec(), b"Three".to_vec()]),
        b"*3\r\n$3\r\nOne\r\n$3\r\nTwo\r\n$5\r\nThree\r\n"
    );

    // Test with an array of empty strings
    assert_eq!(
        str_arr(&vec![b"".to_vec(), b"".to_vec(), b"".to_vec()]),
        b"*3\r\n$0\r\n\r\n$0\r\n\r\n$0\r\n\r\n"
    );
}

#[test]
fn serializer_spec_test_int() {
    // Test with a positive integer
    assert_eq!(int_reply(42), b":42\r\n");

    // Test with a negative integer
    assert_eq!(int_reply(-123), b":-123\r\n");

    // Test with zero
    assert_eq!(int_reply(0), b":0\r\n");

    // Test with the maximum positive integer
    assert_eq!(int_reply(i64::MAX), format!(":{}\r\n", i64::MAX).as_bytes());
}

#[test]
fn serializer_spec_test_err() {
    // Test with a regular error message
    assert_eq!(err(b"Error Message"), b"-Error Message\r\n");

    // Test with an empty error message
    assert_eq!(err(b""), b"-\r\n");

    // Test with a message containing special characters
    assert_eq!(err(b"Special\r\nChars"), b"-Special\r\nChars\r\n");

    // Test with a message containing escaped characters
    assert_eq!(err(b"\\r\\n"), b"-\\r\\n\r\n");
}

#[test]
fn test_nil() {
    // Test with nil
    assert_eq!(nil(), b"$-1\r\n");
}
