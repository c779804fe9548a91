use bueller::cache_record::{CacheRecord, CacheResource, Name, Timestamp};

fn name() -> Name {
    vec![vec![1, 2, 3]]
}

fn rcodes(rec: &CacheRecord) -> Vec<u16> {
    rec.entries().iter().map(|e| e.0).collect::<Vec<u16>>()
}

fn ttls(rec: &CacheRecord) -> Vec<Timestamp> {
    rec.entries().iter().map(|e| e.1).collect::<Vec<Timestamp>>()
}

#[test]
fn test_empty() {
    let mut rec = CacheRecord::new(name());
    assert!(rec.empty());
}

#[test]
fn test_add_and_empty() {
    let mut rec = CacheRecord::new(name());
    rec.add(CacheResource {
        rcode: 0,
        data: None,
        absolute_ttl: 0,
    });
    assert!(!rec.empty());
}

#[test]
fn test_add_duplicate() {
    let mut rec = CacheRecord::new(name());
    rec.add(CacheResource {
        rcode: 0,
        data: None,
        absolute_ttl: 0,
    });
    rec.add(CacheResource {
        rcode: 0,
        data: None,
        absolute_ttl: 1,
    });
    assert_eq!(vec![1], ttls(&rec));
}

#[test]
fn test_add_distinct() {
    let mut rec = CacheRecord::new(name());
    rec.add(CacheResource {
        rcode: 1,
        data: None,
        absolute_ttl: 0,
    });
    rec.add(CacheResource {
        rcode: 2,
        data: None,
        absolute_ttl: 1,
    });
    assert_eq!(vec![1, 2], rcodes(&rec));
}

#[test]
fn test_add_disordered() {
    let mut rec = CacheRecord::new(name());
    rec.add(CacheResource {
        rcode: 2,
        data: None,
        absolute_ttl: 1,
    });
    rec.add(CacheResource {
        rcode: 1,
        data: None,
        absolute_ttl: 0,
    });
    assert_eq!(2, rec.entries().len());
    assert_eq!(vec![1, 2], rcodes(&rec));
}

#[test]
fn test_expire_single_resource() {
    let mut rec = CacheRecord::new(name());
    rec.add(CacheResource {
        rcode: 0,
        data: None,
        absolute_ttl: 0,
    });
    assert!(!rec.empty());
    rec.expire_after(1);
    assert!(rec.empty());
}

#[test]
fn test_expire_single_resource_of_many() {
    let mut rec = CacheRecord::new(name());
    rec.add(CacheResource {
        rcode: 0,
        data: None,
        absolute_ttl: 2,
    });
    rec.add(CacheResource {
        rcode: 1,
        data: None,
        absolute_ttl: 0,
    });
    rec.add(CacheResource {
        rcode: 2,
        data: None,
        absolute_ttl: 2,
    });
    assert_eq!(3, rec.entries().len());
    rec.expire_after(1);
    assert_eq!(vec![0, 2], rcodes(&rec));
}

#[test]
fn test_expire_multiple_resources() {
    let mut rec = CacheRecord::new(name());
    rec.add(CacheResource {
        rcode: 0,
        data: None,
        absolute_ttl: 0,
    });
    rec.add(CacheResource {
        rcode: 1,
        data: None,
        absolute_ttl: 2,
    });
    rec.add(CacheResource {
        rcode: 2,
        data: None,
        absolute_ttl: 0,
    });
    assert_eq!(3, rec.entries().len());
    rec.expire_after(1);
    assert_eq!(vec![1], rcodes(&rec));
}

#[test]
fn test_merge_distinct() {
    let mut target = CacheRecord::new(name());
    target.add(CacheResource {
        rcode: 0,
        data: None,
        absolute_ttl: 0,
    });
    let mut new = CacheRecord::new(name());
    new.add(CacheResource {
        rcode: 1,
        data: None,
        absolute_ttl: 0,
    });
    target.merge_from(new);
    assert_eq!(vec![0, 1], rcodes(&target));
}

#[test]
fn test_merge_overlap() {
    let mut target = CacheRecord::new(name());
    target.add(CacheResource {
        rcode: 0,
        data: None,
        absolute_ttl: 0,
    });
    let mut new = CacheRecord::new(name());
    new.add(CacheResource {
        rcode: 0,
        data: None,
        absolute_ttl: 1,
    });

    target.merge_from(new);

    assert_eq!(vec![0], rcodes(&target));
    assert_eq!(vec![1], ttls(&target));
}

#[test]
fn test_merge_overlap_middle() {
    let mut target = CacheRecord::new(name());
    target.add(CacheResource {
        rcode: 0,
        data: None,
        absolute_ttl: 0,
    });
    target.add(CacheResource {
        rcode: 1,
        data: None,
        absolute_ttl: 0,
    });
    target.add(CacheResource {
        rcode: 4,
        data: None,
        absolute_ttl: 0,
    });
    let mut new = CacheRecord::new(name());
    new.add(CacheResource {
        rcode: 1,
        data: None,
        absolute_ttl: 1,
    });
    new.add(CacheResource {
        rcode: 3,
        data: None,
        absolute_ttl: 3,
    });

    target.merge_from(new);

    assert_eq!(vec![0, 1, 3, 4], rcodes(&target));
    assert_eq!(vec![0, 1, 3, 0], ttls(&target));
}
