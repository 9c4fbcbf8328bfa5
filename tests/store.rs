use filen_cli::store::{
    chunk_plan, delete_step, read_step, LongKeyringEntry, Lookup, MemoryKeyring, Removal,
    SecretBackend, StoreError, CHUNK_SIZE,
};

fn memory() -> SecretBackend {
    SecretBackend::Memory(MemoryKeyring::new())
}

fn secret_of(len: usize) -> String {
    (0..len).map(|i| char::from(b'a' + (i % 26) as u8)).collect()
}

fn round_trip(len: usize) {
    let mut backend = memory();
    let entry = LongKeyringEntry::new("sdk-config");
    let secret = secret_of(len);
    assert!(entry.write_to(&mut backend, &secret).is_ok());
    match entry.read_from(&backend) {
        Ok(s) => assert_eq!(s, secret),
        Err(_) => panic!("read failed"),
    }
}

#[test]
fn chunk_round_trip_lengths() {
    for len in [0, CHUNK_SIZE - 1, CHUNK_SIZE, CHUNK_SIZE + 1, 10 * CHUNK_SIZE] {
        round_trip(len);
    }
}

#[test]
fn chunks_are_named_by_index() {
    let mut backend = memory();
    let entry = LongKeyringEntry::new("sdk-config");
    let secret = secret_of(CHUNK_SIZE + 5);
    assert!(entry.write_to(&mut backend, &secret).is_ok());
    match &backend {
        SecretBackend::Memory(m) => {
            assert_eq!(m.get("sdk-config_0").unwrap(), secret[..CHUNK_SIZE].to_string());
            assert_eq!(m.get("sdk-config_1").unwrap(), secret[CHUNK_SIZE..].to_string());
            assert!(m.get("sdk-config_2").is_none());
            assert!(m.get("sdk-config").is_none());
        }
        SecretBackend::System => panic!("backend changed"),
    }
}

#[test]
fn shorter_secret_replaces_longer_one() {
    let mut backend = memory();
    let entry = LongKeyringEntry::new("sdk-config");
    let long = secret_of(3 * CHUNK_SIZE + 7);
    let short = "short".to_string();
    assert!(entry.write_to(&mut backend, &long).is_ok());
    assert!(entry.write_to(&mut backend, &short).is_ok());
    match entry.read_from(&backend) {
        Ok(s) => assert_eq!(s, short),
        Err(_) => panic!("read failed"),
    }
    match &backend {
        SecretBackend::Memory(m) => {
            assert!(m.get("sdk-config_1").is_none());
            assert!(m.get("sdk-config_2").is_none());
            assert!(m.get("sdk-config_3").is_none());
        }
        SecretBackend::System => panic!("backend changed"),
    }
}

#[test]
fn read_of_missing_secret_is_empty() {
    let backend = memory();
    let entry = LongKeyringEntry::new("nothing");
    match entry.read_from(&backend) {
        Ok(s) => assert_eq!(s, ""),
        Err(_) => panic!("read failed"),
    }
}

#[test]
fn read_stops_at_first_gap() {
    let mut m = MemoryKeyring::new();
    m.set("x_0", "ab");
    m.set("x_1", "cd");
    m.set("x_3", "zz");
    let backend = SecretBackend::Memory(m);
    match LongKeyringEntry::new("x").read_from(&backend) {
        Ok(s) => assert_eq!(s, "abcd"),
        Err(_) => panic!("read failed"),
    }
}

#[test]
fn delete_of_missing_secret_succeeds() {
    let mut backend = memory();
    let entry = LongKeyringEntry::new("sdk-config");
    assert!(entry.delete_from(&mut backend).is_ok());
}

#[test]
fn delete_twice_succeeds() {
    let mut backend = memory();
    let entry = LongKeyringEntry::new("sdk-config");
    assert!(entry.write_to(&mut backend, &secret_of(2 * CHUNK_SIZE + 1)).is_ok());
    assert!(entry.delete_from(&mut backend).is_ok());
    assert!(entry.delete_from(&mut backend).is_ok());
    match entry.read_from(&backend) {
        Ok(s) => assert_eq!(s, ""),
        Err(_) => panic!("read failed"),
    }
}

#[test]
fn delete_keeps_other_entries() {
    let mut m = MemoryKeyring::new();
    m.set("x_0", "ab");
    m.set("y_0", "keep");
    m.set("x_2", "stale");
    let mut backend = SecretBackend::Memory(m);
    assert!(LongKeyringEntry::new("x").delete_from(&mut backend).is_ok());
    match &backend {
        SecretBackend::Memory(m) => {
            assert!(m.get("x_0").is_none());
            assert_eq!(m.get("y_0").unwrap(), "keep");
            assert_eq!(m.get("x_2").unwrap(), "stale");
        }
        SecretBackend::System => panic!("backend changed"),
    }
}

#[test]
fn memory_keyring_set_get_remove() {
    let mut m = MemoryKeyring::new();
    assert!(m.get("k").is_none());
    m.set("k", "v1");
    m.set("k", "v2");
    assert_eq!(m.get("k").unwrap(), "v2");
    assert!(m.remove("k"));
    assert!(!m.remove("k"));
    assert!(m.get("k").is_none());
}

#[test]
fn store_error_variants() {
    let e = StoreError::TooManyChunks;
    assert!(matches!(e, StoreError::TooManyChunks));
    let b = StoreError::Backend("x".to_string());
    assert!(matches!(b, StoreError::Backend(_)));
}

#[test]
fn read_step_answers() {
    match read_step("ab", Lookup::Found("cd".to_string())) {
        Ok(Some(s)) => assert_eq!(s, "abcd"),
        _ => panic!("expected more text"),
    }
    assert!(matches!(read_step("ab", Lookup::Missing), Ok(None)));
    match read_step("ab", Lookup::Failed("locked".to_string())) {
        Err(StoreError::Backend(m)) => assert_eq!(m, "locked"),
        _ => panic!("expected the backend failure"),
    }
}

#[test]
fn delete_step_answers() {
    assert!(matches!(delete_step(Removal::Removed), Ok(true)));
    assert!(matches!(delete_step(Removal::Missing), Ok(false)));
    match delete_step(Removal::Failed("denied".to_string())) {
        Err(StoreError::Backend(m)) => assert_eq!(m, "denied"),
        _ => panic!("expected the backend failure"),
    }
}

#[test]
fn chunk_plan_names_and_splits() {
    let secret = secret_of(2 * CHUNK_SIZE + 3);
    let plan = chunk_plan("sdk-config", &secret);
    assert_eq!(plan.len(), 3);
    assert_eq!(plan[0].0, "sdk-config_0");
    assert_eq!(plan[1].0, "sdk-config_1");
    assert_eq!(plan[2].0, "sdk-config_2");
    assert_eq!(plan[0].1, secret[..CHUNK_SIZE]);
    assert_eq!(plan[2].1, secret[2 * CHUNK_SIZE..]);
    assert!(chunk_plan("x", "").is_empty());
}

#[test]
fn chunk_names_use_decimal_indexes() {
    let secret = secret_of(101 * CHUNK_SIZE);
    let plan = chunk_plan("x", &secret);
    assert_eq!(plan.len(), 101);
    assert_eq!(plan[9].0, "x_9");
    assert_eq!(plan[10].0, "x_10");
    assert_eq!(plan[100].0, "x_100");
}

#[test]
fn chunks_are_counted_in_bytes() {
    let secret: String = std::iter::repeat('é').take(CHUNK_SIZE).collect();
    assert_eq!(secret.len(), 2 * CHUNK_SIZE);
    let plan = chunk_plan("x", &secret);
    assert_eq!(plan.len(), 2);
    assert_eq!(plan[0].1.len(), CHUNK_SIZE);
    assert_eq!(plan[1].1.len(), CHUNK_SIZE);
    let mut backend = SecretBackend::Memory(MemoryKeyring::new());
    let entry = LongKeyringEntry::new("x");
    assert!(entry.write_to(&mut backend, &secret).is_ok());
    match entry.read_from(&backend) {
        Ok(s) => assert_eq!(s, secret),
        Err(_) => panic!("read failed"),
    }
}

#[test]
fn read_failure_is_reported() {
    let mut m = MemoryKeyring::new();
    m.set("x_0", "ab");
    m.set("x_1", "cd");
    m.set("x_2", "ef");
    m.fail_on("x_1");
    let backend = SecretBackend::Memory(m);
    assert!(matches!(
        LongKeyringEntry::new("x").read_from(&backend),
        Err(StoreError::Backend(_))
    ));
}

#[test]
fn write_failure_stops_at_failing_chunk() {
    let mut m = MemoryKeyring::new();
    m.set("x_2", "old");
    m.fail_on("x_1");
    let mut backend = SecretBackend::Memory(m);
    let secret = secret_of(3 * CHUNK_SIZE);
    let r = LongKeyringEntry::new("x").write_to(&mut backend, &secret);
    assert!(matches!(r, Err(StoreError::Backend(_))));
    match &backend {
        SecretBackend::Memory(m) => {
            assert_eq!(m.get("x_0").unwrap(), secret[..CHUNK_SIZE].to_string());
            assert!(m.get("x_1").is_none());
            assert_eq!(m.get("x_2").unwrap(), "old");
            assert!(m.is_failing("x_1"));
        }
        SecretBackend::System => panic!("backend changed"),
    }
}

#[test]
fn delete_failure_leaves_rest() {
    let mut m = MemoryKeyring::new();
    m.set("x_0", "a");
    m.set("x_1", "b");
    m.set("x_2", "c");
    m.fail_on("x_1");
    let mut backend = SecretBackend::Memory(m);
    let r = LongKeyringEntry::new("x").delete_from(&mut backend);
    assert!(matches!(r, Err(StoreError::Backend(_))));
    match &backend {
        SecretBackend::Memory(m) => {
            assert!(m.get("x_0").is_none());
            assert_eq!(m.get("x_1").unwrap(), "b");
            assert_eq!(m.get("x_2").unwrap(), "c");
        }
        SecretBackend::System => panic!("backend changed"),
    }
}
