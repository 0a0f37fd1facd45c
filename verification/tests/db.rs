use mini_redis::clock::{now, second_of, seconds_until};
use mini_redis::db::{Store, DB};
use mini_redis::order::{rank_bytes, rank_text, same_text, Rank};

#[test]
fn set_get() {
    let mut db = DB::new();
    let value = "value".as_bytes().to_vec();
    db.set("key".to_string(), value.clone(), None);

    let result_value = db.get("key").unwrap();

    assert_eq!(value, result_value);
}

#[test]
#[should_panic]
fn get_nonexistent() {
    let db = DB::new();

    db.get("key").unwrap();
}

#[test]
#[should_panic]
fn delete() {
    let mut db = DB::new();
    let value = "value".as_bytes().to_vec();
    db.set("key".to_string(), value.clone(), None);

    db.delete("key");

    db.get("key").unwrap();
}

#[test]
#[should_panic]
fn test_expiry() {
    let mut db = DB::new();
    let value = "value".as_bytes().to_vec();
    let start = 1_000;
    db.set_at("key".to_string(), value.clone(), Some(2), start);
    db.delete_entries_at(start + 3);
    db.get("key").unwrap();
}

#[test]
fn entry_is_kept_until_its_life_ends() {
    let mut db = DB::new();
    db.set_at("k".to_string(), b"v".to_vec(), Some(2), 100);
    assert_eq!(db.delete_entries_at(100), Some(102));
    assert_eq!(db.get("k"), Some(b"v".to_vec()));
    assert_eq!(db.delete_entries_at(101), Some(102));
    assert_eq!(db.get("k"), Some(b"v".to_vec()));
    assert_eq!(db.delete_entries_at(102), None);
    assert_eq!(db.get("k"), None);
}

#[test]
fn entry_without_ttl_is_never_taken_out() {
    let mut db = DB::new();
    db.set_at("k".to_string(), b"v".to_vec(), None, 100);
    db.set_at("other".to_string(), b"w".to_vec(), Some(1), 100);
    db.delete("missing");
    assert_eq!(db.delete_entries_at(u32::MAX), None);
    assert_eq!(db.get("k"), Some(b"v".to_vec()));
    assert_eq!(db.get("other"), None);
}

#[test]
fn set_replaces_value_and_ttl() {
    let mut db = DB::new();
    db.set_at("k".to_string(), b"old".to_vec(), Some(5), 10);
    db.set_at("k".to_string(), b"new".to_vec(), None, 11);
    assert_eq!(db.store().len(), 1);
    assert_eq!(db.store().ttl_len(), 0);
    assert_eq!(db.delete_entries_at(1_000), None);
    assert_eq!(db.get("k"), Some(b"new".to_vec()));
    db.set_at("k".to_string(), b"newer".to_vec(), Some(7), 20);
    assert_eq!(db.store().ttl_len(), 1);
    assert_eq!(db.delete_entries_at(26), Some(27));
    assert_eq!(db.delete_entries_at(27), None);
    assert_eq!(db.get("k"), None);
}

#[test]
fn delete_returns_the_bytes_and_clears_the_row() {
    let mut db = DB::new();
    db.set_at("k".to_string(), b"v".to_vec(), Some(5), 10);
    assert_eq!(db.delete("k"), Some(b"v".to_vec()));
    assert_eq!(db.delete("k"), None);
    assert_eq!(db.store().len(), 0);
    assert_eq!(db.store().ttl_len(), 0);
    assert_eq!(db.delete_entries_at(0), None);
}

#[test]
fn expiry_saturates() {
    let mut db = DB::new();
    db.set_at("k".to_string(), b"v".to_vec(), Some(u32::MAX), 7);
    assert_eq!(db.store().entry_at(0).unwrap().1.expires_at, Some(u32::MAX));
    assert_eq!(db.delete_entries_at(u32::MAX - 1), Some(u32::MAX));
    assert_eq!(db.delete_entries_at(u32::MAX), None);
}

#[test]
fn expiry_is_the_sum_of_second_and_ttl() {
    let mut db = DB::new();
    db.set_at("k".to_string(), b"v".to_vec(), Some(60), 1_700_000_000);
    assert_eq!(db.store().entry_at(0).unwrap().1.expires_at, Some(1_700_000_060));
    let (key, value) = db.store().entry_at(0).unwrap();
    assert_eq!((key.as_str(), value.value.as_slice()), ("k", &b"v"[..]));
    assert!(db.store().entry_at(1).is_none());
}

#[test]
fn set_with_ttl_counts_from_the_clock() {
    let before = now();
    let mut db = DB::new();
    db.set("k".to_string(), b"v".to_vec(), Some(100));
    let after = now();
    let expires_at = db.store().entry_at(0).unwrap().1.expires_at.unwrap();
    assert!(before + 100 <= expires_at && expires_at <= after + 100);
    assert_eq!(db.delete_entries(), Some(expires_at));
    assert_eq!(db.get("k"), Some(b"v".to_vec()));
}

#[test]
fn clock_shows_a_second_of_this_century() {
    assert!(now() > 1_600_000_000);
}

#[test]
fn expired_entries_leave_in_order_of_expiry() {
    let mut store = Store::new();
    store.set("c".to_string(), b"3".to_vec(), Some(30));
    store.set("a".to_string(), b"1".to_vec(), Some(10));
    store.set("b".to_string(), b"2".to_vec(), Some(20));
    store.set("d".to_string(), b"4".to_vec(), None);
    store.set("aa".to_string(), b"5".to_vec(), Some(10));
    assert_eq!(store.len(), 5);
    assert_eq!(store.ttl_len(), 4);
    assert_eq!(store.delete_entries(9), Some(10));
    assert_eq!(store.len(), 5);
    assert_eq!(store.delete_entries(10), Some(20));
    assert_eq!(store.get("a"), None);
    assert_eq!(store.get("aa"), None);
    assert_eq!(store.get("b"), Some(b"2".to_vec()));
    assert_eq!(store.delete_entries(25), Some(30));
    assert_eq!(store.delete_entries(30), None);
    assert_eq!(store.len(), 1);
    assert_eq!(store.get("d"), Some(b"4".to_vec()));
}

#[test]
fn indexes_stay_in_step() {
    let mut store = Store::new();
    let keys = ["k0", "k1", "k2", "k3", "k4", "k5", "k6", "k7"];
    let mut timed = 0;
    for (i, key) in keys.iter().enumerate() {
        let ttl = if i % 2 == 0 { Some(100 - i as u32) } else { None };
        if ttl.is_some() {
            timed += 1;
        }
        store.set(key.to_string(), vec![i as u8], ttl);
        assert_eq!(store.len(), i + 1);
        assert_eq!(store.ttl_len(), timed);
    }
    store.set("k0".to_string(), vec![9], None);
    assert_eq!(store.len(), 8);
    assert_eq!(store.ttl_len(), 3);
    store.set("k1".to_string(), vec![9], Some(1));
    assert_eq!(store.ttl_len(), 4);
    assert_eq!(store.delete("k2"), Some(vec![2]));
    assert_eq!(store.len(), 7);
    assert_eq!(store.ttl_len(), 3);
    assert_eq!(store.delete("k3"), Some(vec![3]));
    assert_eq!(store.len(), 6);
    assert_eq!(store.ttl_len(), 3);
    assert_eq!(store.delete_entries(1), Some(94));
    assert_eq!(store.len(), 5);
    assert_eq!(store.ttl_len(), 2);
}

#[test]
fn ranks_bytes_lexicographically() {
    assert_eq!(rank_bytes(b"", b""), Rank::Same);
    assert_eq!(rank_bytes(b"", b"a"), Rank::Before);
    assert_eq!(rank_bytes(b"a", b""), Rank::After);
    assert_eq!(rank_bytes(b"ab", b"abc"), Rank::Before);
    assert_eq!(rank_bytes(b"abd", b"abc"), Rank::After);
    assert_eq!(rank_bytes(b"abc", b"abc"), Rank::Same);
    assert_eq!(rank_bytes(b"b", b"abc"), Rank::After);
}

#[test]
fn ranks_text_as_strings_are_ordered() {
    let texts = ["", "a", "ab", "b", "\u{e9}", "z", "\u{1f980}"];
    for a in texts {
        for b in texts {
            let expected = if a < b {
                Rank::Before
            } else if a == b {
                Rank::Same
            } else {
                Rank::After
            };
            assert_eq!(rank_text(a, b), expected);
            assert_eq!(same_text(a, b), a == b);
        }
    }
}

#[test]
fn seconds_until_a_later_second() {
    assert_eq!(seconds_until(10, 4), 6);
    assert_eq!(seconds_until(10, 10), 0);
    assert_eq!(seconds_until(10, 11), 0);
    assert_eq!(seconds_until(u32::MAX, 0), u32::MAX as u64);
}

#[test]
fn second_is_the_low_bits_of_the_reading() {
    assert_eq!(second_of(0), 0);
    assert_eq!(second_of(1_700_000_000), 1_700_000_000);
    assert_eq!(second_of(u32::MAX as i64), u32::MAX);
    assert_eq!(second_of(1 << 32), 0);
    assert_eq!(second_of((1 << 32) + 7), 7);
    assert_eq!(second_of(-1), u32::MAX);
    assert_eq!(second_of(i64::MIN), 0);
    assert_eq!(second_of(i64::MAX), u32::MAX);
}
