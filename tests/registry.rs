use nft_container::codec::{load, save};
use nft_container::registry::Registry;
use nft_container::state::{StableState, State};
use nft_container::types::{Error, Identity, InitArgs, MetadataPart, MetadataPurpose, MetadataVal, WeatherResult};
use std::collections::HashMap;

fn calm() -> WeatherResult {
    WeatherResult { temperature: 0, pressure: 0, humidity: 0, wind_speed: 0 }
}

fn demo() -> Registry {
    Registry::new(InitArgs { logo: calm(), name: "Demo".to_string(), symbol: "DMO".to_string() })
}

fn id(b: &[u8]) -> Identity {
    Identity::from_bytes(b.to_vec())
}

fn hash(s: &str) -> nft_container::types::Hash {
    nft_container::types::Hash { hash_value: s.to_string() }
}

#[test]
fn demo_create_transfer_lookup() {
    let (a, b, c) = (id(&[1]), id(&[2]), id(&[3]));
    let mut r = demo();
    assert_eq!(r.create(a.clone(), vec![], vec![]), Ok(0));
    assert!(r.lookup(0).unwrap().owner == a);
    assert_eq!(r.lookup(0).unwrap().id, 0);
    assert_eq!(r.transfer(0, b.clone(), &a, false), Ok(0));
    assert!(r.lookup(0).unwrap().owner == b);
    assert_eq!(r.transfer(0, c, &a, false), Err(Error::Unauthorized));
    assert!(r.lookup(0).unwrap().owner == b);
    assert_eq!(r.state().txid, 1);
}

#[test]
fn token_ids_are_separate_from_transaction_ids() {
    let (a, b) = (id(&[1]), id(&[2]));
    let mut r = demo();
    assert_eq!(r.create(a.clone(), vec![], vec![]), Ok(0));
    assert_eq!(r.create(a.clone(), vec![], vec![7]), Ok(1));
    assert_eq!(r.create(b.clone(), vec![], vec![]), Ok(2));
    assert_eq!(r.state().txid, 0);
    assert_eq!(r.transfer(1, b.clone(), &a, false), Ok(0));
    assert_eq!(r.transfer(2, a.clone(), &b, false), Ok(1));
    assert_eq!(r.lookup(1).unwrap().content, vec![7]);
    assert_eq!(r.create(a, vec![], vec![]), Ok(3));
    assert_eq!(r.state().txid, 2);
}

#[test]
fn create_with_null_owner_fails() {
    let mut r = demo();
    assert_eq!(r.create(Identity::null(), vec![], vec![]), Err(Error::ZeroAddress));
    assert_eq!(r.lookup(0).err(), Some(Error::InvalidTokenId));
}

#[test]
fn transfer_to_null_fails_and_keeps_owner() {
    let a = id(&[1]);
    let mut r = demo();
    r.create(a.clone(), vec![], vec![]).unwrap();
    assert_eq!(r.transfer(0, Identity::null(), &a, false), Err(Error::ZeroAddress));
    assert_eq!(r.transfer(0, Identity::null(), &id(&[9]), false), Err(Error::ZeroAddress));
    assert!(r.lookup(0).unwrap().owner == a);
    assert_eq!(r.state().txid, 0);
}

#[test]
fn transfer_by_stranger_fails_and_keeps_state() {
    let (a, b) = (id(&[1, 2]), id(&[1]));
    let mut r = demo();
    r.create(a.clone(), vec![], vec![]).unwrap();
    assert_eq!(r.transfer(0, b.clone(), &b, false), Err(Error::Unauthorized));
    assert!(r.lookup(0).unwrap().owner == a);
    assert_eq!(r.state().txid, 0);
}

#[test]
fn transfer_by_approved_caller_succeeds() {
    let (a, b) = (id(&[1]), id(&[2]));
    let mut r = demo();
    r.create(a, vec![], vec![]).unwrap();
    assert_eq!(r.transfer(0, b.clone(), &b, true), Ok(0));
    assert!(r.lookup(0).unwrap().owner == b);
}

#[test]
fn transfer_of_missing_token_fails() {
    let a = id(&[1]);
    let mut r = demo();
    assert_eq!(r.transfer(0, a.clone(), &a, true), Err(Error::InvalidTokenId));
    r.create(a.clone(), vec![], vec![]).unwrap();
    assert_eq!(r.transfer(5, a.clone(), &a, true), Err(Error::InvalidTokenId));
    assert_eq!(r.state().txid, 0);
}

#[test]
fn lookup_of_never_issued_id_fails() {
    let mut r = demo();
    assert_eq!(r.lookup(0).err(), Some(Error::InvalidTokenId));
    r.create(id(&[1]), vec![], vec![]).unwrap();
    assert!(r.lookup(0).is_ok());
    assert_eq!(r.lookup(1).err(), Some(Error::InvalidTokenId));
    assert_eq!(r.lookup(u64::MAX).err(), Some(Error::InvalidTokenId));
}

#[test]
fn create_keeps_metadata_in_order() {
    let mut kv = HashMap::new();
    kv.insert("width".to_string(), MetadataVal::Nat32Content(640));
    let parts = vec![
        MetadataPart { purpose: MetadataPurpose::Preview, key_val_data: kv, data: vec![1], custom_data: None },
        MetadataPart {
            purpose: MetadataPurpose::Rendered,
            key_val_data: HashMap::new(),
            data: vec![2, 3],
            custom_data: Some(MetadataVal::TextContent("x".to_string())),
        },
    ];
    let mut r = demo();
    r.create(id(&[1]), parts, vec![9, 9]).unwrap();
    let t = r.lookup(0).unwrap();
    assert_eq!(t.metadata.len(), 2);
    assert!(t.metadata[0].purpose == MetadataPurpose::Preview);
    assert!(t.metadata[1].purpose == MetadataPurpose::Rendered);
    assert_eq!(t.metadata[1].data, vec![2, 3]);
    assert_eq!(t.content, vec![9, 9]);
}

#[test]
fn next_txid_issues_dense_increasing_ids() {
    let mut s = State::new(InitArgs { logo: calm(), name: "N".to_string(), symbol: "S".to_string() });
    s.txid = 41;
    let ids: Vec<u128> = (0..5).map(|_| s.next_txid()).collect();
    assert_eq!(ids, vec![41, 42, 43, 44, 45]);
    assert_eq!(s.txid, 46);
}

#[test]
fn next_txid_wraps_at_the_end_of_the_range() {
    let mut s = State::new(InitArgs { logo: calm(), name: "N".to_string(), symbol: "S".to_string() });
    s.txid = u128::MAX;
    assert_eq!(s.next_txid(), u128::MAX);
    assert_eq!(s.txid, 0);
}

#[test]
fn record_hash_appends_even_for_a_repeated_key() {
    let mut r = demo();
    r.record_hash("a".to_string(), hash("h1"));
    r.record_hash("b".to_string(), hash("h2"));
    r.record_hash("a".to_string(), hash("h3"));
    let hs: Vec<(String, String)> =
        r.state().hashes.iter().map(|(k, h)| (k.clone(), h.hash_value.clone())).collect();
    assert_eq!(
        hs,
        vec![
            ("a".to_string(), "h1".to_string()),
            ("b".to_string(), "h2".to_string()),
            ("a".to_string(), "h3".to_string())
        ]
    );
}

#[test]
fn set_weather_stores_reading_verbatim() {
    let mut r = demo();
    let w = WeatherResult { temperature: -40, pressure: 1013, humidity: 87, wind_speed: i32::MIN };
    r.set_weather(w);
    assert!(r.state().weather_data == w);
}

fn busy_state() -> State {
    let mut s = State::new(InitArgs {
        logo: WeatherResult { temperature: -7, pressure: i32::MAX, humidity: 55, wind_speed: i32::MIN },
        name: "Größe ✓ 𝄞".to_string(),
        symbol: "DMO".to_string(),
    });
    s.record_hash("k1".to_string(), hash("abc"));
    s.record_hash("".to_string(), hash(""));
    s.record_hash("k1".to_string(), hash("ünï"));
    s.txid = u128::MAX - 3;
    s
}

fn same_state(a: &State, b: &State) -> bool {
    let hs = |s: &State| -> Vec<(String, String)> {
        s.hashes.iter().map(|(k, h)| (k.clone(), h.hash_value.clone())).collect()
    };
    a.weather_data == b.weather_data && hs(a) == hs(b) && a.name == b.name && a.symbol == b.symbol && a.txid == b.txid
}

#[test]
fn snapshot_round_trip_keeps_everything() {
    let s = busy_state();
    let bytes = save(&s);
    let t = load(&bytes).ok().unwrap();
    assert!(same_state(&s, &t));
    assert_eq!(t.name, "Größe ✓ 𝄞");
    assert_eq!(t.hashes[2].1.hash_value, "ünï");
    assert_eq!(save(&t), bytes);
}

#[test]
fn snapshot_round_trip_of_a_fresh_state() {
    let s = State::new(InitArgs { logo: calm(), name: String::new(), symbol: String::new() });
    let t = load(&save(&s)).ok().unwrap();
    assert!(same_state(&s, &t));
    assert!(t.hashes.is_empty());
}

#[test]
fn stable_state_holds_a_restored_state() {
    let stable = StableState { state: busy_state() };
    let bytes = save(&stable.state);
    let back = StableState { state: load(&bytes).ok().unwrap() };
    assert!(same_state(&stable.state, &back.state));
}

#[test]
fn snapshot_layout() {
    let s = State::new(InitArgs {
        logo: WeatherResult { temperature: -1, pressure: 2, humidity: 3, wind_speed: 4 },
        name: "é".to_string(),
        symbol: "".to_string(),
    });
    let mut expected: Vec<u8> = vec![1, 255, 255, 255, 255, 2, 0, 0, 0, 3, 0, 0, 0, 4, 0, 0, 0];
    expected.extend([2, 0, 0, 0, 0, 0, 0, 0, 0]);
    expected.extend([3, 1, 0, 0, 0, 0, 0, 0, 0, 0xe9, 0, 0, 0]);
    expected.extend([4, 0, 0, 0, 0, 0, 0, 0, 0]);
    expected.push(5);
    expected.extend([0u8; 16]);
    assert_eq!(save(&s), expected);
}

#[test]
fn load_rejects_empty_and_truncated_bytes() {
    assert_eq!(load(&[]).err(), Some(Error::CorruptSnapshot));
    let bytes = save(&busy_state());
    for n in 0..bytes.len() {
        assert_eq!(load(&bytes[..n]).err(), Some(Error::CorruptSnapshot), "prefix of {} bytes", n);
    }
}

#[test]
fn load_rejects_trailing_bytes() {
    let mut bytes = save(&busy_state());
    bytes.push(0);
    assert_eq!(load(&bytes).err(), Some(Error::CorruptSnapshot));
}

#[test]
fn load_rejects_a_wrong_tag() {
    let mut bytes = save(&busy_state());
    bytes[0] = 2;
    assert_eq!(load(&bytes).err(), Some(Error::CorruptSnapshot));
}

#[test]
fn load_rejects_a_surrogate_char_code() {
    let s = State::new(InitArgs { logo: calm(), name: "a".to_string(), symbol: String::new() });
    let mut bytes = save(&s);
    // the name's only char code sits after the reading, the empty hash log,
    // the name tag and the name's length
    let at = 17 + 9 + 1 + 8;
    assert_eq!(bytes[at], b'a');
    bytes[at] = 0x00;
    bytes[at + 1] = 0xD8;
    assert_eq!(load(&bytes).err(), Some(Error::CorruptSnapshot));
    bytes[at + 1] = 0x00;
    bytes[at + 2] = 0x11;
    assert_eq!(load(&bytes).err(), Some(Error::CorruptSnapshot));
}

#[test]
fn load_rejects_a_hash_count_beyond_the_bytes() {
    let mut bytes = save(&busy_state());
    // the entry count follows the reading and the hash log's tag
    bytes[18] = 200;
    assert_eq!(load(&bytes).err(), Some(Error::CorruptSnapshot));
}

#[test]
fn identity_equality_compares_bytes() {
    assert!(id(&[1, 2]) == id(&[1, 2]));
    assert!(id(&[1, 2]) != id(&[1, 3]));
    assert!(id(&[1]) != id(&[1, 0]));
    assert!(Identity::null().is_null());
    assert!(!id(&[0]).is_null());
}

#[test]
fn int_conversion_failure_is_invalid_token_id() {
    let e = u64::try_from(u128::MAX).unwrap_err();
    assert_eq!(Error::from(e), Error::InvalidTokenId);
}
