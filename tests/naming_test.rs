use logger::naming::{append_to_filename, is_encrypt_file};

#[test]
fn encrypted_logs_are_found_by_name() {
    assert!(is_encrypt_file("20250520_08_encrypt.log"));
    assert!(is_encrypt_file("encrypt"));
    assert!(!is_encrypt_file("20250520_08_plain.log"));
    assert!(!is_encrypt_file("encryp"));
    assert!(!is_encrypt_file(""));
    assert!(is_encrypt_file("已encrypt"));
}

#[test]
fn decrypted_name_sits_beside_the_input() {
    assert_eq!(
        append_to_filename("20250520_08_encrypt", "_decrypt", Some("log")),
        "20250520_08_encrypt_decrypt.log"
    );
    assert_eq!(append_to_filename("notes", "_decrypt", None), "notes_decrypt");
    assert_eq!(append_to_filename("", "_x", Some("")), "_x.");
}
