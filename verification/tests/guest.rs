use baremetal_platform::guest::{guest_message, log_host_function, run, MessageError};

#[test]
fn text_is_read_from_the_memory() {
    let memory = b"..hello guest..";
    assert_eq!(guest_message(memory, 2, 5), Ok("hello"));
    assert_eq!(guest_message(memory, 0, 15), Ok("..hello guest.."));
    assert_eq!(guest_message(memory, 15, 0), Ok(""));
    assert_eq!(guest_message(memory, 3, 0), Ok(""));
}

#[test]
fn text_outside_of_the_memory_is_out_of_bounds() {
    let memory = b"0123456789";
    assert_eq!(guest_message(memory, 5, 6), Err(MessageError::OutOfBounds));
    assert_eq!(guest_message(memory, 11, 0), Err(MessageError::OutOfBounds));
    assert_eq!(guest_message(memory, 0, 11), Err(MessageError::OutOfBounds));
    assert_eq!(guest_message(memory, u32::MAX, u32::MAX), Err(MessageError::OutOfBounds));
    assert_eq!(guest_message(&[0xff], 1, 1), Err(MessageError::OutOfBounds));
}

#[test]
fn bytes_that_are_no_text_are_invalid() {
    let memory = [b'a', 0xff, b'b', 0xc3, 0xa9];
    assert_eq!(guest_message(&memory, 0, 2), Err(MessageError::InvalidText));
    assert_eq!(guest_message(&memory, 3, 1), Err(MessageError::InvalidText));
    assert_eq!(guest_message(&memory, 3, 2), Ok("é"));
    assert_eq!(guest_message(&memory, 2, 3), Ok("bé"));
}

#[test]
fn the_callback_logs_the_text() {
    assert_eq!(log_host_function(Some(b"done-even")), "module log: done-even");
    assert_eq!(log_host_function(Some(b"")), "module log: ");
    assert_eq!(log_host_function(Some("é".as_bytes())), "module log: é");
}

#[test]
fn the_callback_tells_of_a_null_buffer() {
    assert_eq!(log_host_function(None), "buffer pointer is null");
}

#[test]
fn the_callback_tells_of_bytes_that_are_no_text() {
    assert_eq!(log_host_function(Some(&[0xc3])), "module logged using an invalid string");
    assert_eq!(log_host_function(Some(&[b'a', 0x80])), "module logged using an invalid string");
}

#[test]
fn the_module_ends_even_or_odd() {
    // 0 rounds: 0. 1 round: 1013904223. 2 rounds: (1013904223 + 1) * 1664525 + 1013904223.
    assert_eq!(run(0), "done-even");
    assert_eq!(run(1), "done-odd");
    assert_eq!(run(2), "done-odd");
    assert_eq!(run(-5), "done-even");
}

#[test]
fn the_module_mixes_within_32_bits() {
    for iterations in [3, 10, 1000, 100_000] {
        let mut acc: u32 = 0;
        for i in 0..iterations {
            acc = acc.wrapping_add(u32::try_from(i).unwrap());
            acc = acc.wrapping_mul(1_664_525).wrapping_add(1_013_904_223);
        }
        let expected = if acc % 2 == 0 { "done-even" } else { "done-odd" };
        assert_eq!(run(iterations), expected);
    }
}
