use vector_magik::dragout::{
    accepts, click_point, continue_drag, drag_file, drag_outcome, drag_window, hdrop_payload,
    is_staged, is_stale, ole_guid, query_data, query_interface, same_dir, same_guid, wide,
    DragOutcome, Folder,
};

#[test]
fn payload_is_a_dropfiles_block_with_wide_paths() {
    let bytes = hdrop_payload(&["C:\\a\\b.svg", "D:\\c.pdf"]);
    assert_eq!(
        &bytes[..4],
        &20u32.to_le_bytes(),
        "list starts after the header"
    );
    assert_eq!(&bytes[4..16], &[0u8; 12], "drop point and client flag");
    assert_eq!(&bytes[16..20], &1u32.to_le_bytes(), "wide characters");
    let wide: Vec<u16> = bytes[20..]
        .chunks(2)
        .map(|c| u16::from_le_bytes([c[0], c[1]]))
        .collect();
    assert_eq!(
        String::from_utf16(&wide).unwrap(),
        "C:\\a\\b.svg\0D:\\c.pdf\0\0"
    );
    assert_eq!(bytes.len() % 2, 0);
}

#[test]
fn staged_paths_are_recognised_and_stale_ones_tidied() {
    let staging = Folder {
        path: "C:\\Temp\\VectorMagik",
        resolved: Some("\\\\?\\C:\\Temp\\VectorMagik"),
    };
    let own = Folder {
        path: "c:/temp/vectormagik",
        resolved: Some("\\\\?\\C:\\Temp\\VectorMagik"),
    };
    let other = Folder {
        path: "C:\\somewhere",
        resolved: None,
    };
    assert!(is_staged(Some(own), staging));
    assert!(!is_staged(Some(other), staging));
    assert!(!is_staged(None, staging));
    assert!(!is_stale(Some((0, 0))), "a fresh file survives tidying");
    assert!(!is_stale(Some((86_400, 0))));
    assert!(is_stale(Some((86_400, 1))));
    assert!(is_stale(Some((86_401, 0))));
    assert!(!is_stale(None));
}

#[test]
fn folders_are_one_by_what_the_file_system_says() {
    assert!(same_dir("a", "b", Some("/x"), Some("/x")));
    assert!(!same_dir("a", "a", Some("/x"), Some("/y")));
    assert!(same_dir("a", "a", None, Some("/y")));
    assert!(!same_dir("a", "b", None, None));
}

#[test]
fn wide_text_is_utf16() {
    for text in ["", "plain", "Grüße", "図", "a\u{1F600}b"] {
        let expected: Vec<u16> = text.encode_utf16().chain(Some(0)).collect();
        let got = wide(text);
        assert!(
            got == expected || got == expected[..expected.len() - 1],
            "{text}"
        );
    }
}

#[test]
fn a_drag_ends_by_the_keys_and_the_receiver() {
    assert_eq!(
        drag_file("C:\\a.svg").unwrap_err(),
        "Dragging files out of the window needs Windows"
    );
    // Escape cancels, the button let go drops.
    let cancel = continue_drag(1, 1);
    let dropped = continue_drag(0, 0);
    assert_ne!(cancel, dropped);
    assert_eq!(continue_drag(0, 1), 0);
    assert_eq!(drag_outcome(dropped, 1), Ok(DragOutcome::Dropped));
    assert_eq!(drag_outcome(dropped, 0), Ok(DragOutcome::Cancelled));
    assert_eq!(drag_outcome(cancel, 0), Ok(DragOutcome::Cancelled));
    assert!(drag_outcome(-1, 0).is_err());
    assert_eq!(drag_window(7, 9), 7);
    assert_eq!(drag_window(0, 9), 9);
    assert_eq!(click_point(3, 2), (2 << 16) | 3);
}

#[test]
fn the_data_is_offered_as_files_in_memory() {
    assert!(accepts(15, 1, 1));
    assert!(!accepts(1, 1, 1));
    assert!(!accepts(15, 2, 1));
    assert_eq!(query_data(Some((15, 1, 1))), 0);
    assert_ne!(query_data(Some((1, 1, 1))), 0);
    assert_ne!(query_data(None), 0);
    let data = ole_guid(0x10e);
    assert!(same_guid(Some(&data), &ole_guid(0x10e)));
    assert!(!same_guid(Some(&data), &ole_guid(0x121)));
    assert!(!same_guid(None, &data));
    assert_eq!(query_interface(Some(&data), 0x10e, true), 0);
    assert_eq!(query_interface(Some(&ole_guid(0)), 0x10e, true), 0);
    assert_ne!(query_interface(Some(&ole_guid(0x121)), 0x10e, true), 0);
    assert_ne!(query_interface(Some(&data), 0x10e, false), 0);
}
