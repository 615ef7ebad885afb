//! Keyed hashes of queries, and the key they are made with.

use mdkb::metrics::privacy::{
    draw_key, hash_query, hash_query_with_key, key_directory, key_path, load_or_create_key,
    read_key, tag_text, Creation, KeyError, KeyEvent, KeyStep, KEY_LEN,
};

#[test]
fn hmac_normalizes_queries_and_separates_keys() {
    let a = hash_query_with_key(&[1; KEY_LEN], "  Configure   AUTH ");
    let b = hash_query_with_key(&[1; KEY_LEN], "configure auth");
    let other_key = hash_query_with_key(&[2; KEY_LEN], "configure auth");
    assert_eq!(a, b);
    assert_ne!(a, other_key);
    assert_eq!(a.len(), 64);
}

#[test]
fn a_hash_is_the_hmac_of_the_query() {
    assert_eq!(
        hash_query_with_key(&[0x0b; 20], "Hi  There"),
        "457dcb1b1c1bf655d15da1b98306f5aa511e19bd15debdc85c3134592039578e"
    );
    let tag = ring::hmac::sign(
        &ring::hmac::Key::new(ring::hmac::HMAC_SHA256, &[0x0b; 20]),
        b"hi there",
    );
    assert_eq!(hash_query_with_key(&[0x0b; 20], "Hi There"), tag_text(tag.as_ref()));
}

#[test]
fn a_query_is_lowercased_as_unicode_has_it() {
    assert_eq!(
        hash_query_with_key(&[7; KEY_LEN], "STRASSE ÄÖ"),
        hash_query_with_key(&[7; KEY_LEN], "strasse äö")
    );
    assert_ne!(
        hash_query_with_key(&[7; KEY_LEN], "ab"),
        hash_query_with_key(&[7; KEY_LEN], "a b")
    );
}

#[test]
fn a_query_is_hashed_where_the_key_could_be_had() {
    let hash = hash_query(Ok(vec![1; KEY_LEN]), "configure auth");
    assert_eq!(
        hash,
        Ok(Some(hash_query_with_key(&[1; KEY_LEN], "configure auth")))
    );
    let failed = KeyError::Other("no".to_string());
    assert_eq!(hash_query(Err(failed.clone()), "q"), Err(failed));
}

#[test]
fn a_tag_is_written_in_lower_case_hex() {
    assert_eq!(tag_text(&[0x00, 0x0f, 0xa9, 0xff]), "000fa9ff");
    assert_eq!(tag_text(&[]), "");
}

#[test]
fn the_key_lies_in_the_store() {
    assert_eq!(key_directory("/repo"), "/repo/.mdkb");
    assert_eq!(key_path("/repo"), "/repo/.mdkb/telemetry.key");
    assert_eq!(key_path("/repo/"), "/repo/.mdkb/telemetry.key");
}

#[test]
fn a_key_of_another_length_is_refused() {
    assert_eq!(read_key("/k", Ok(vec![3; 32])), Ok(vec![3; 32]));
    assert_eq!(
        read_key("/k", Err("gone".to_string())),
        Err(KeyError::Io {
            path: "/k".to_string(),
            operation: "read telemetry key: gone".to_string(),
        })
    );
    assert!(matches!(
        read_key("/k", Ok(vec![3; 31])),
        Err(KeyError::Other(message)) if message.contains("31")
    ));
}

/// Run the steps of loading a key against a disk that is one variable.
fn run(disk: &mut Option<Vec<u8>>) -> Vec<u8> {
    let mut event = KeyEvent::Asked;
    for _ in 0..10 {
        event = match load_or_create_key(event, "/repo") {
            KeyStep::Read => KeyEvent::Read(disk.clone().ok_or("missing".to_string())),
            KeyStep::CreateDirectory => KeyEvent::DirectoryCreated(Ok(())),
            KeyStep::Draw => draw_key(),
            KeyStep::Create(key) => {
                let creation = if disk.is_some() {
                    Creation::AlreadyExists
                } else {
                    Creation::Created
                };
                KeyEvent::Created(key, creation)
            }
            KeyStep::Write(key) => {
                *disk = Some(key.clone());
                KeyEvent::Written(key, Ok(()))
            }
            KeyStep::Sync(key) => KeyEvent::Synced(key, Ok(())),
            KeyStep::ReadAgain => KeyEvent::ReadAgain(disk.clone().ok_or("missing".to_string())),
            KeyStep::Use(key) => return key,
            KeyStep::Fail(error) => panic!("{error:?}"),
        };
    }
    panic!("no end")
}

#[test]
fn a_created_key_is_stable() {
    let mut disk = None;
    let first = run(&mut disk);
    let second = run(&mut disk);
    assert_eq!(first, second);
    assert_eq!(first.len(), KEY_LEN);
    assert_eq!(disk, Some(first));
}

#[test]
fn a_lost_race_takes_the_key_of_the_winner() {
    let key = vec![9; KEY_LEN];
    let lost = load_or_create_key(KeyEvent::Created(vec![1; KEY_LEN], Creation::AlreadyExists), "/r");
    assert_eq!(lost, KeyStep::ReadAgain);
    assert_eq!(
        load_or_create_key(KeyEvent::ReadAgain(Ok(key.clone())), "/r"),
        KeyStep::Use(key)
    );
}

#[test]
fn every_step_that_fails_says_where() {
    let key = vec![1; KEY_LEN];
    let boom = || "boom".to_string();
    let failures = [
        KeyEvent::DirectoryCreated(Err(boom())),
        KeyEvent::Drawn(None),
        KeyEvent::Created(key.clone(), Creation::Failed(boom())),
        KeyEvent::Written(key.clone(), Err(boom())),
        KeyEvent::Synced(key, Err(boom())),
        KeyEvent::ReadAgain(Err(boom())),
        KeyEvent::ReadAgain(Ok(vec![1; 3])),
    ];
    for event in failures {
        assert!(matches!(load_or_create_key(event, "/r"), KeyStep::Fail(_)));
    }
}

#[test]
fn two_drawn_keys_differ() {
    let (KeyEvent::Drawn(Some(a)), KeyEvent::Drawn(Some(b))) = (draw_key(), draw_key()) else {
        panic!("no randomness")
    };
    assert_eq!(a.len(), KEY_LEN);
    assert_ne!(a, b);
}
