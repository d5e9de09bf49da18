use scp::transport::{reconnect_after_end, sse_data, Reconnect};

#[test]
fn the_first_data_line_is_the_message() {
    assert_eq!(sse_data("event: message\ndata: {\"a\":1}\n\n"), Some("{\"a\":1}".to_string()));
    assert_eq!(sse_data("data:   \r\ndata:x\r\n"), Some("x".to_string()));
    assert_eq!(sse_data(": keepalive\n\n"), None);
    assert_eq!(sse_data(""), None);
    assert_eq!(sse_data("data: last"), Some("last".to_string()));
    assert_eq!(sse_data("Data: no\nxdata: no\n"), None);
}

#[test]
fn reconnects_back_off_then_give_up() {
    let mut attempts = 0u32;
    let mut waits = vec![];
    loop {
        match reconnect_after_end(&mut attempts) {
            Reconnect::After(s) => waits.push(s),
            Reconnect::GiveUp => break,
        }
    }
    assert_eq!(waits, vec![1, 2, 4, 8, 16]);
    assert_eq!(attempts, 6);
}
