use krate::framing::{pack_chunk_header, unpack_chunk_header, MAX_FRAME_LEN};

#[test]
fn pack_chunk_header_exact_bytes() {
    assert_eq!(pack_chunk_header(false, 0), [0, 0, 0, 0]);
    assert_eq!(pack_chunk_header(false, 1), [0, 0, 0, 1]);
    assert_eq!(pack_chunk_header(true, 1), [0x80, 0, 0, 1]);
    assert_eq!(pack_chunk_header(false, 0x0102_0304), [1, 2, 3, 4]);
    assert_eq!(pack_chunk_header(true, 65536 + 16), [0x80, 0x01, 0x00, 0x10]);
    assert_eq!(pack_chunk_header(true, MAX_FRAME_LEN), [0xFF, 0xFF, 0xFF, 0xFF]);
    assert_eq!(pack_chunk_header(false, MAX_FRAME_LEN), [0x7F, 0xFF, 0xFF, 0xFF]);
}

#[test]
fn unpack_chunk_header_exact_values() {
    assert_eq!(unpack_chunk_header([0, 0, 0, 1]), Some((false, 1)));
    assert_eq!(unpack_chunk_header([0x80, 0, 0, 1]), Some((true, 1)));
    assert_eq!(unpack_chunk_header([0x80, 0, 1, 2]), Some((true, 258)));
    assert_eq!(unpack_chunk_header([1, 2, 3, 4]), Some((false, 0x0102_0304)));
    assert_eq!(unpack_chunk_header([0x7F, 0xFF, 0xFF, 0xFF]), Some((false, 0x7FFF_FFFF)));
    assert_eq!(unpack_chunk_header([0xFF, 0xFF, 0xFF, 0xFF]), Some((true, 0x7FFF_FFFF)));
}

#[test]
fn header_that_announces_no_bytes_is_refused() {
    assert_eq!(unpack_chunk_header([0, 0, 0, 0]), None);
    assert_eq!(unpack_chunk_header([0x80, 0, 0, 0]), None);
}

#[test]
fn chunk_header_round_trip() {
    for len in [1usize, 2, 255, 256, 65535, 65536, 65552, 0x00FF_FFFF, 0x7FFF_FFFE, 0x7FFF_FFFF] {
        for last in [false, true] {
            assert_eq!(unpack_chunk_header(pack_chunk_header(last, len)), Some((last, len)));
        }
    }
}
