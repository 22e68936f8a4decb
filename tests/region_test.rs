use logger::region::{find_boundary, tail_boundary, write_at};

#[test]
fn boundary_of_padded_data() {
    assert_eq!(find_boundary(&[]), 0);
    assert_eq!(find_boundary(&[0, 0, 0]), 0);
    assert_eq!(find_boundary(&[1, 2, 3]), 3);
    assert_eq!(find_boundary(&[1, 0, 3, 0, 0]), 3);
    assert_eq!(find_boundary(&[0, 0, 7]), 3);
}

#[test]
fn write_at_copies_into_place() {
    let mut region = vec![0u8; 8];
    write_at(&mut region, 0, b"ab\n");
    assert_eq!(find_boundary(&region), 3);
    write_at(&mut region, 3, b"cd\n");
    assert_eq!(&region, b"ab\ncd\n\0\0");
    assert_eq!(find_boundary(&region), 6);
}

#[test]
fn tail_scan_matches_whole_scan() {
    let mut file = vec![0u8; 300];
    file[..5].copy_from_slice(b"1234\n");
    file[130] = b'x';
    // Pieces of 64 bytes from the tail.
    assert_eq!(tail_boundary(&file[256..300], 256), None);
    assert_eq!(tail_boundary(&file[192..256], 192), None);
    assert_eq!(tail_boundary(&file[128..192], 128), Some(131));
    assert_eq!(find_boundary(&file), 131);
}
