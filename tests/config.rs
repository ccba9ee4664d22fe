use memkv::config::{pool_capacity, select_db, DbArg};

#[test]
fn exactly_one_database() {
    assert!(matches!(select_db(Some("a.cdb".to_string()), None), Some(DbArg::Cdb(p)) if p == "a.cdb"));
    assert!(matches!(select_db(None, Some("b.mtbl".to_string())), Some(DbArg::Mtbl(p)) if p == "b.mtbl"));
    assert!(select_db(None, None).is_none());
    assert!(select_db(Some("a".to_string()), Some("b".to_string())).is_none());
}

#[test]
fn pool_has_ten_plus_ten_per_cpu() {
    assert_eq!(pool_capacity(0), 10);
    assert_eq!(pool_capacity(1), 20);
    assert_eq!(pool_capacity(8), 90);
}
