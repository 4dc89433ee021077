use constelladb::pool::PoolIndex;

#[test]
fn pool_dials_once_then_reuses() {
    let mut pool = PoolIndex::new();
    assert_eq!(pool.position("127.0.0.1:8080"), None);
    assert_eq!(pool.add("127.0.0.1:8080"), 0);
    assert_eq!(pool.position("127.0.0.1:8080"), Some(0));
    assert_eq!(pool.position("127.0.0.1:8081"), None);
    assert_eq!(pool.add("127.0.0.1:8081"), 1);
    assert_eq!(pool.position("127.0.0.1:8081"), Some(1));
}

#[test]
fn pool_remove_then_redial() {
    let mut pool = PoolIndex::new();
    pool.add("a:1");
    pool.add("b:2");
    pool.add("c:3");
    assert_eq!(pool.remove("b:2"), Some(1));
    assert_eq!(pool.position("b:2"), None);
    assert_eq!(pool.position("c:3"), Some(1));
    assert_eq!(pool.remove("b:2"), None);
    assert_eq!(pool.add("b:2"), 2);
    assert_eq!(pool.position("a:1"), Some(0));
}
