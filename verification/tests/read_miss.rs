use cache_model::cache::{AccessRequest, AccessStatus, AccessType, Cache, CacheConfig};

#[test]
fn read_miss_refill_then_hit() {
    let config = CacheConfig {
        addr_width: 16,
        cache_size: 64,
        line_size: 16,
    };
    let mut cache = Cache::new(config);
    cache.memory.write_line(0, &[1, 2, 3, 4, 5, 6, 7, 8, 9, 10, 11, 12, 13, 14, 15, 16][..]);

    let request = AccessRequest {
        access_type: AccessType::Read,
        addr: 0,
        rsize: 4,
        wdata: 0,
        wmask: 0,
    };
    let response = cache.access(request);
    assert_eq!(response.status, AccessStatus::Miss);
    assert!(!response.ready);
}

#[test]
fn read_miss_refill_then_hit_after_refill() {
    let config = CacheConfig {
        addr_width: 16,
        cache_size: 64,
        line_size: 16,
    };
    let mut cache = Cache::new(config);
    cache
        .memory
        .write_line(0, &[1, 2, 3, 4, 5, 6, 7, 8, 9, 10, 11, 12, 13, 14, 15, 16][..]);

    let req = AccessRequest {
        access_type: AccessType::Read,
        addr: 0,
        rsize: 4,
        wdata: 0,
        wmask: 0,
    };
    let first = cache.access(req);
    assert_eq!(first.status, AccessStatus::Miss);
    assert!(!first.ready);

    let second = cache.access(req);
    assert_eq!(second.status, AccessStatus::Hit);
    assert_eq!(second.rdata, 0x04030201);
    assert!(second.ready);
}

#[test]
fn read_miss_populates_line() {
    let config = CacheConfig {
        addr_width: 16,
        cache_size: 64,
        line_size: 16,
    };
    let mut cache = Cache::new(config);
    cache
        .memory
        .write_line(0, &[1, 2, 3, 4, 5, 6, 7, 8, 9, 10, 11, 12, 13, 14, 15, 16][..]);

    let req = AccessRequest {
        access_type: AccessType::Read,
        addr: 0,
        rsize: 4,
        wdata: 0,
        wmask: 0,
    };

    let _ = cache.access(req);

    assert!(cache.lines[0].valid);
    assert_eq!(cache.lines[0].tag, 0);
    assert_eq!(cache.lines[0].data, vec![1, 2, 3, 4, 5, 6, 7, 8, 9, 10, 11, 12, 13, 14, 15, 16]);

}
