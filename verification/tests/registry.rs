use emakiwm::registry::{
    add_to_path, buffer_text, bytes_of_text, quoted, remove_from_path, strip_end, text_of_bytes,
    wide_text,
};

#[test]
fn texts_are_kept_in_utf16() {
    assert_eq!(bytes_of_text("aé"), vec![0x61, 0, 0xE9, 0, 0, 0]);
    assert_eq!(
        wide_text("x😀"),
        vec![0x78, 0xD83D, 0xDE00, 0]
    );
    for s in ["", "abc", "日本語 text", "a😀b", "C:\\Program Files"] {
        let std: Vec<u16> = s.encode_utf16().chain(std::iter::once(0)).collect();
        assert_eq!(wide_text(s), std);
    }
}

#[test]
fn kept_texts_are_read_back() {
    for s in ["", "abc", "日本語", "a😀b"] {
        assert_eq!(text_of_bytes(&bytes_of_text(s)), s);
    }
    assert_eq!(text_of_bytes(&bytes_of_text("ab\0\0")), "ab");
}

#[test]
fn odd_and_broken_bytes_are_read() {
    assert_eq!(text_of_bytes(&vec![]), "");
    assert_eq!(text_of_bytes(&vec![0x61, 0, 0x62]), "a");
    assert_eq!(text_of_bytes(&vec![0x00, 0xD8, 0x61, 0]), "\u{fffd}a");
}

#[test]
fn buffers_are_read_as_far_as_filled() {
    let buf: Vec<u16> = "title".encode_utf16().chain([0, 0]).collect();
    assert_eq!(buffer_text(&buf, 5), "title");
    assert_eq!(buffer_text(&buf, 2), "ti");
    assert_eq!(buffer_text(&buf, 0), "");
    assert_eq!(buffer_text(&buf, -1), "");
}

#[test]
fn ends_are_stripped() {
    assert_eq!(strip_end("C:\\a\\\\", '\\'), "C:\\a");
    assert_eq!(strip_end("\\\\", '\\'), "");
    assert_eq!(strip_end("abc", '\\'), "abc");
}

#[test]
fn paths_are_quoted() {
    assert_eq!(quoted("C:\\a b.exe"), "\"C:\\a b.exe\"");
}

#[test]
fn directory_is_added_once() {
    assert_eq!(add_to_path("", "C:\\e"), Some("C:\\e".to_string()));
    assert_eq!(
        add_to_path("C:\\a;C:\\b", "C:\\e"),
        Some("C:\\a;C:\\b;C:\\e".to_string())
    );
    assert_eq!(add_to_path("C:\\a;C:\\e", "C:\\e"), None);
    assert_eq!(add_to_path("C:\\e\\;C:\\a", "C:\\e"), None);
    assert_eq!(add_to_path("C:\\e", "C:\\e\\"), None);
    assert_eq!(add_to_path("C:\\E", "C:\\e"), Some("C:\\E;C:\\e".to_string()));
}

#[test]
fn directory_is_removed_wherever_it_stands() {
    assert_eq!(remove_from_path("C:\\a;C:\\e\\;C:\\b;C:\\e", "C:\\e"), "C:\\a;C:\\b");
    assert_eq!(remove_from_path("C:\\e", "C:\\e"), "");
    assert_eq!(remove_from_path("", "C:\\e"), "");
    assert_eq!(remove_from_path("C:\\a;;C:\\b", "C:\\e"), "C:\\a;;C:\\b");
}

#[test]
fn adding_and_removing_changes_nothing() {
    for list in ["", "C:\\a", "C:\\a;C:\\b\\", "C:\\a;"] {
        let with = add_to_path(list, "C:\\e").unwrap();
        assert_eq!(add_to_path(&with, "C:\\e"), None);
        assert_eq!(remove_from_path(&with, "C:\\e"), list);
    }
}
