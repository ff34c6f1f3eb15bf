use lru_cache::CacheEntry;

#[test]
fn entry_setters_change_one_field() {
    let mut e = CacheEntry::new(1, 2, "k", 10);
    e.set_previous(5);
    e.set_next(6);
    assert_eq!((e.previous(), e.next(), *e.key(), *e.value()), (5, 6, "k", 10));
    e.set_key("j");
    e.set_value(11);
    assert_eq!((e.previous(), e.next(), *e.key(), *e.value()), (5, 6, "j", 11));
}
