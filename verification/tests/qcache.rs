use tensor_tape::qcache::QCache;

fn name(s: &str) -> String {
    s.to_string()
}

#[test]
fn a_cold_cache_remembers_what_to_write() {
    let mut c = QCache::open(None);
    assert!(!c.get(&name("a")));
    assert!(c.put(name("a")));
    assert!(c.put(name("b")));
    assert_eq!(c.flush(), 2);
    assert!(!c.get(&name("a")));
    c.flushed();
    assert_eq!(c.flush(), 0);
    // the file is there now: nothing is written over it
    assert!(!c.put(name("c")));
    assert_eq!(c.flush(), 0);
}

#[test]
fn a_warm_cache_serves_and_writes_nothing() {
    let mut c = QCache::open(Some(vec![name("a"), name("b")]));
    assert!(c.get(&name("a")));
    assert!(c.get(&name("b")));
    assert!(!c.get(&name("c")));
    assert!(!c.put(name("c")));
    assert_eq!(c.flush(), 0);
}

#[test]
fn a_disabled_cache_does_nothing() {
    let mut c = QCache::disabled();
    assert!(!c.get(&name("a")));
    assert!(!c.put(name("a")));
    assert_eq!(c.flush(), 0);
    c.flushed();
    assert_eq!(c.flush(), 0);
}
