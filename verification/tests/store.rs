use liked_songs::store::{decode_snapshot, snapshot_body, NotUtf8, SNAPSHOT_BUCKET, SNAPSHOT_KEY};

#[test]
fn snapshot_location() {
    assert_eq!(SNAPSHOT_BUCKET, "markaronin-liked-songs");
    assert_eq!(SNAPSHOT_KEY, "liked-songs.txt");
}

#[test]
fn body_that_is_utf8_decodes_to_its_text() {
    assert_eq!(decode_snapshot(Vec::new()), Ok(String::new()));
    assert_eq!(decode_snapshot(b"{\"a\":1}\n".to_vec()), Ok("{\"a\":1}\n".to_string()));
    assert_eq!(
        decode_snapshot(vec![0xc3, 0xa9, 0xe6, 0x97, 0xa5, 0xf0, 0x9f, 0x8e, 0xb5]),
        Ok("é日🎵".to_string())
    );
}

#[test]
fn body_that_is_not_utf8_is_refused() {
    assert_eq!(decode_snapshot(vec![0xff]), Err(NotUtf8));
    assert_eq!(decode_snapshot(vec![b'a', 0xc3]), Err(NotUtf8));
    assert_eq!(decode_snapshot(vec![0xc0, 0x80]), Err(NotUtf8));
    assert_eq!(decode_snapshot(vec![0xed, 0xa0, 0x80]), Err(NotUtf8));
    assert_eq!(decode_snapshot(vec![0xf4, 0x90, 0x80, 0x80]), Err(NotUtf8));
}

#[test]
fn snapshot_body_is_the_text_in_utf8() {
    assert_eq!(snapshot_body(&"".to_string()), Vec::<u8>::new());
    assert_eq!(snapshot_body(&"a\n".to_string()), vec![b'a', b'\n']);
    assert_eq!(
        snapshot_body(&"é日🎵".to_string()),
        vec![0xc3, 0xa9, 0xe6, 0x97, 0xa5, 0xf0, 0x9f, 0x8e, 0xb5]
    );
}

#[test]
fn what_was_uploaded_decodes_to_the_snapshot() {
    for text in ["", "\n", "{\"song_name\":\"Beyoncé 🎵\"}\n", "\u{0}\u{7f}\u{80}\u{10ffff}"] {
        assert_eq!(decode_snapshot(snapshot_body(&text.to_string())), Ok(text.to_string()));
    }
}
