use herdr_services::clipboard::{base64, copy_sequence, tools};

#[test]
fn base64_matches_rfc_examples() {
    assert_eq!(base64(b""), "");
    assert_eq!(base64(b"f"), "Zg==");
    assert_eq!(base64(b"fo"), "Zm8=");
    assert_eq!(base64(b"foo"), "Zm9v");
    assert_eq!(
        base64(b"http://localhost:3000"),
        "aHR0cDovL2xvY2FsaG9zdDozMDAw"
    );
}

#[test]
fn every_byte_is_encoded() {
    assert_eq!(base64(&[0xff, 0xfe, 0xfd]), "//79");
    assert_eq!(base64(&[0, 0, 0, 0]), "AAAAAA==");
}

#[test]
fn the_terminal_is_told_to_copy() {
    assert_eq!(copy_sequence("Zm9v"), "\x1b]52;c;Zm9v\x07");
}

#[test]
fn tools_are_tried_in_this_order() {
    let list: Vec<(String, Vec<String>)> =
        tools().into_iter().map(|t| (t.program, t.args)).collect();
    let programs: Vec<&str> = list.iter().map(|t| t.0.as_str()).collect();
    assert_eq!(programs, vec!["pbcopy", "wl-copy", "xclip", "xsel"]);
    assert_eq!(list[2].1, vec!["-selection", "clipboard"]);
    assert_eq!(list[3].1, vec!["--clipboard", "--input"]);
    assert!(list[0].1.is_empty());
}
