use cache_model::cache::{AccessRequest, AccessStatus, AccessType, Cache, CacheConfig};

fn make_config() -> CacheConfig {
    CacheConfig {
        addr_width: 16,
        cache_size: 64,
        line_size: 16,
    }
}

fn write_req(addr: u32, wdata: u32, wmask: u8) -> AccessRequest {
    AccessRequest {
        access_type: AccessType::Write,
        addr,
        rsize: 0,
        wdata,
        wmask,
    }
}

fn read_req(addr: u32, rsize: u8) -> AccessRequest {
    AccessRequest {
        access_type: AccessType::Read,
        addr,
        rsize,
        wdata: 0,
        wmask: 0,
    }
}

#[test]
fn write_miss_evicts_dirty_block_and_writeback() {
    let mut cache = Cache::new(make_config());

    cache.memory.write_line(0, &[0xA0; 16]);
    cache.memory.write_line(64, &[0xB0; 16]);

    let resp = cache.access(write_req(0, 0xDEAD_BEEF, 0xF));
    assert_eq!(resp.status, AccessStatus::Miss);

    assert!(cache.lines[0].dirty);
    assert!(cache.lines[0].valid);

    let resp = cache.access(write_req(64, 0x1234_5678, 0xF));
    assert_eq!(resp.status, AccessStatus::Miss);

    let mem_data = cache.memory.read_line(0);
    assert_eq!(mem_data[0], 0xEF);
    assert_eq!(mem_data[1], 0xBE);
    assert_eq!(mem_data[2], 0xAD);
    assert_eq!(mem_data[3], 0xDE);
    assert_eq!(mem_data[4], 0xA0);
}

#[test]
fn read_miss_evicts_dirty_block_and_writeback() {
    let mut cache = Cache::new(make_config());

    cache.memory.write_line(16, &[0x11; 16]);
    cache.memory.write_line(80, &[0x22; 16]);

    let resp = cache.access(write_req(16, 0xCAFE_F00D, 0xF));
    assert_eq!(resp.status, AccessStatus::Miss);
    assert!(cache.lines[1].dirty);

    let resp = cache.access(read_req(80, 4));
    assert_eq!(resp.status, AccessStatus::Miss);

    let mem_data = cache.memory.read_line(16);
    assert_eq!(mem_data[0], 0x0D);
    assert_eq!(mem_data[1], 0xF0);
    assert_eq!(mem_data[2], 0xFE);
    assert_eq!(mem_data[3], 0xCA);
}

#[test]
fn evicting_clean_block_does_not_writeback() {
    let mut cache = Cache::new(make_config());

    cache.memory.write_line(0, &[1, 2, 3, 4, 5, 6, 7, 8, 9, 10, 11, 12, 13, 14, 15, 16]);
    cache.memory.write_line(64, &[0xBB; 16]);

    let resp = cache.access(read_req(0, 4));
    assert_eq!(resp.status, AccessStatus::Miss);
    assert!(!cache.lines[0].dirty);

    let resp = cache.access(write_req(64, 0, 0xF));
    assert_eq!(resp.status, AccessStatus::Miss);

    let mem_data = cache.memory.read_line(0);
    assert_eq!(mem_data, [1, 2, 3, 4, 5, 6, 7, 8, 9, 10, 11, 12, 13, 14, 15, 16]);
}

#[test]
fn writeback_clears_dirty_flag() {
    let mut cache = Cache::new(make_config());

    cache.memory.write_line(0, &[0; 16]);
    cache.memory.write_line(64, &[0; 16]);

    cache.access(write_req(0, 0xFFFF_FFFF, 0xF));
    assert!(cache.lines[0].dirty);

    cache.access(write_req(64, 0xAAAA_AAAA, 0xF));

    assert!(cache.lines[0].dirty);
    assert_eq!(cache.lines[0].tag, 1);

    let mem_data = cache.memory.read_line(0);
    assert_eq!(u32::from_le_bytes(mem_data[0..4].try_into().unwrap()), 0xFFFF_FFFF);
}

#[test]
fn evicting_invalid_line_does_not_writeback() {
    let mut cache = Cache::new(make_config());

    cache.memory.write_line(0, &[0; 16]);

    let resp = cache.access(write_req(0, 0x1234_5678, 0xF));
    assert_eq!(resp.status, AccessStatus::Miss);

    let resp = cache.access(read_req(0, 4));
    assert_eq!(resp.status, AccessStatus::Hit);
    assert_eq!(resp.rdata, 0x1234_5678);
}

#[test]
fn multiple_evictions_preserve_data() {
    let mut cache = Cache::new(make_config());

    cache.memory.write_line(0, &[0; 16]);
    cache.memory.write_line(64, &[0; 16]);

    cache.access(write_req(0, 0x1111_1111, 0xF));
    assert!(cache.lines[0].dirty);

    cache.access(write_req(64, 0x2222_2222, 0xF));
    let mem_0 = cache.memory.read_line(0);
    assert_eq!(u32::from_le_bytes(mem_0[0..4].try_into().unwrap()), 0x1111_1111);

    cache.access(read_req(0, 4));
    let mem_64 = cache.memory.read_line(64);
    assert_eq!(u32::from_le_bytes(mem_64[0..4].try_into().unwrap()), 0x2222_2222);

    let resp = cache.access(read_req(0, 4));
    assert_eq!(resp.status, AccessStatus::Hit);
    assert_eq!(resp.rdata, 0x1111_1111);
}
