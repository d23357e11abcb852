use brotli_dec::window::OutputWindow;

fn push_all(w: &mut OutputWindow, bytes: &[u8]) {
    for &b in bytes {
        w.push_byte(b);
    }
}

#[test]
fn copy_within_history_reads_the_exact_range() {
    // Distance within produced bytes: the copy equals the byte range
    // starting that far back.
    let mut w = OutputWindow::new(10);
    push_all(&mut w, b"abcdef");
    let copied = w.copy_from_distance(4, 3);
    assert_eq!(copied, b"cde".to_vec());
}

#[test]
fn copy_with_short_distance_repeats() {
    let mut w = OutputWindow::new(10);
    push_all(&mut w, b"xyz");
    let copied = w.copy_from_distance(2, 5);
    assert_eq!(copied, b"yzyzy".to_vec());
}

#[test]
fn copy_with_distance_one_repeats_last_byte() {
    let mut w = OutputWindow::new(10);
    push_all(&mut w, b"Q");
    let copied = w.copy_from_distance(1, 4);
    assert_eq!(copied, b"QQQQ".to_vec());
}

#[test]
fn read_back_sees_recent_bytes_across_wrap() {
    // A four-byte window holding more than four bytes of history.
    let mut w = OutputWindow::new(2);
    push_all(&mut w, b"abcdef");
    assert_eq!(w.read_back(1), b'f');
    assert_eq!(w.read_back(2), b'e');
    assert_eq!(w.read_back(3), b'd');
    assert_eq!(w.read_back(4), b'c');
}

#[test]
fn copy_across_the_ring_boundary() {
    let mut w = OutputWindow::new(2);
    push_all(&mut w, b"abcdef");
    let copied = w.copy_from_distance(3, 3);
    assert_eq!(copied, b"def".to_vec());
}

#[test]
fn window_sizes_are_powers_of_two() {
    let w = OutputWindow::new(16);
    let copied = {
        let mut w = w;
        w.push_byte(7);
        w.copy_from_distance(1, 2)
    };
    assert_eq!(copied, vec![7, 7]);
}
