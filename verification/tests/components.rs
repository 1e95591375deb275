use cache_model::cache::{
    decode_address, AccessRequest, AccessStatus, AccessType, Cache, CacheConfig, CacheLine,
    MockMemory,
};

fn config() -> CacheConfig {
    CacheConfig {
        addr_width: 16,
        cache_size: 64,
        line_size: 16,
    }
}

fn read_req(addr: u32, rsize: u8) -> AccessRequest {
    AccessRequest {
        access_type: AccessType::Read,
        addr,
        rsize,
        wdata: 0,
        wmask: 0,
    }
}

fn write_req(addr: u32, wdata: u32, wmask: u8) -> AccessRequest {
    AccessRequest {
        access_type: AccessType::Write,
        addr,
        rsize: 0,
        wdata,
        wmask,
    }
}

#[test]
fn decode_splits_tag_index_offset() {
    let parts = decode_address(0x1234, 16, 4);
    assert_eq!(parts.tag, 0x1234 / 64);
    assert_eq!(parts.index, (0x1234 / 16) % 4);
    assert_eq!(parts.offset, 0x1234 % 16);
    assert_eq!(parts.tag, 72);
    assert_eq!(parts.index, 3);
    assert_eq!(parts.offset, 4);
}

#[test]
fn decode_recomposes_address() {
    for addr in [0u32, 1, 15, 16, 63, 64, 80, 1000, 65535] {
        let p = decode_address(addr, 16, 4);
        assert!(p.index < 4);
        assert!(p.offset < 16);
        assert_eq!((p.tag as usize) * 64 + p.index * 16 + p.offset, addr as usize);
    }
}

#[test]
fn decode_with_four_byte_lines() {
    let p = decode_address(0xAB, 4, 8);
    assert_eq!(p.tag, 0xAB / 32);
    assert_eq!(p.index, (0xAB / 4) % 8);
    assert_eq!(p.offset, 3);
}

#[test]
fn new_line_is_invalid_and_zeroed() {
    let line = CacheLine::new(8);
    assert!(!line.valid);
    assert!(!line.dirty);
    assert_eq!(line.tag, 0);
    assert_eq!(line.data, vec![0u8; 8]);
    assert!(!line.is_hit(0));
}

#[test]
fn is_hit_needs_valid_and_matching_tag() {
    let mut line = CacheLine::new(4);
    line.fill(7, &[1, 2, 3, 4]);
    assert!(line.is_hit(7));
    assert!(!line.is_hit(8));
    line.valid = false;
    assert!(!line.is_hit(7));
}

#[test]
fn fill_sets_status_and_copies_data() {
    let mut line = CacheLine::new(4);
    line.dirty = true;
    line.fill(3, &[9, 8, 7, 6]);
    assert!(line.valid);
    assert!(!line.dirty);
    assert_eq!(line.tag, 3);
    assert_eq!(line.data, vec![9, 8, 7, 6]);
}

#[test]
fn read_u32_little_endian_sizes() {
    let mut line = CacheLine::new(8);
    line.fill(0, &[0x11, 0x22, 0x33, 0x44, 0x55, 0x66, 0x77, 0x88]);
    assert_eq!(line.read_u32(0, 1), 0x11);
    assert_eq!(line.read_u32(0, 2), 0x2211);
    assert_eq!(line.read_u32(2, 2), 0x4433);
    assert_eq!(line.read_u32(4, 4), 0x8877_6655);
    assert_eq!(line.read_u32(7, 1), 0x88);
    assert_eq!(line.read_u32(3, 0), 0);
}

#[test]
fn write_u32_masks_and_marks_dirty() {
    let mut line = CacheLine::new(8);
    line.fill(0, &[0; 8]);
    line.write_u32(2, 0xAABB_CCDD, 0b1010);
    assert!(line.dirty);
    assert!(line.valid);
    assert_eq!(line.data, vec![0, 0, 0, 0xCC, 0, 0xAA, 0, 0]);
}

#[test]
fn write_u32_empty_mask_only_marks_dirty() {
    let mut line = CacheLine::new(4);
    line.fill(1, &[1, 2, 3, 4]);
    line.write_u32(0, 0xFFFF_FFFF, 0);
    assert!(line.dirty);
    assert_eq!(line.data, vec![1, 2, 3, 4]);
}

#[test]
fn write_u32_single_byte_at_line_end() {
    let mut line = CacheLine::new(4);
    line.fill(1, &[1, 2, 3, 4]);
    line.write_u32(3, 0x0000_00EE, 0x1);
    assert_eq!(line.data, vec![1, 2, 3, 0xEE]);
}

#[test]
fn line_write_then_read_gives_word() {
    let mut line = CacheLine::new(16);
    line.fill(0, &[7; 16]);
    line.write_u32(8, 0x0BAD_F00D, 0xF);
    assert_eq!(line.read_u32(8, 4), 0x0BAD_F00D);
    assert_eq!(line.read_u32(4, 4), 0x0707_0707);
}

#[test]
fn memory_starts_zeroed() {
    let mem = MockMemory::new(4, 16);
    assert_eq!(mem.line_size, 4);
    assert_eq!(mem.data, vec![0u8; 16]);
    assert_eq!(mem.read_line(12), vec![0, 0, 0, 0]);
}

#[test]
fn memory_read_after_write_and_frame() {
    let mut mem = MockMemory::new(4, 16);
    mem.write_line(4, &[1, 2, 3, 4]);
    assert_eq!(mem.read_line(4), vec![1, 2, 3, 4]);
    assert_eq!(mem.read_line(0), vec![0, 0, 0, 0]);
    assert_eq!(mem.read_line(8), vec![0, 0, 0, 0]);
    mem.write_line(5, &[9, 9, 9, 9]);
    assert_eq!(mem.data, vec![0, 0, 0, 0, 1, 9, 9, 9, 9, 0, 0, 0, 0, 0, 0, 0]);
}

#[test]
fn new_cache_shape() {
    let cache = Cache::new(config());
    assert_eq!(cache.num_lines(), 4);
    assert_eq!(cache.lines.len(), 4);
    assert_eq!(cache.memory.data.len(), 256);
    assert_eq!(cache.memory.line_size, 16);
    for line in &cache.lines {
        assert!(!line.valid);
        assert!(!line.dirty);
        assert_eq!(line.data.len(), 16);
    }
}

#[test]
fn new_cache_with_partial_line_rounds_down() {
    let cache = Cache::new(CacheConfig {
        addr_width: 8,
        cache_size: 40,
        line_size: 16,
    });
    assert_eq!(cache.num_lines(), 2);
    assert_eq!(cache.memory.data.len(), 160);
}

#[test]
fn read_hit_leaves_state_untouched() {
    let mut cache = Cache::new(config());
    cache.memory.write_line(32, &[5; 16]);
    cache.access(read_req(32, 4));
    let before = cache.lines[2].data.clone();
    let resp = cache.access(read_req(34, 2));
    assert_eq!(resp.status, AccessStatus::Hit);
    assert!(resp.ready);
    assert_eq!(resp.rdata, 0x0505);
    assert_eq!(cache.lines[2].data, before);
    assert!(!cache.lines[2].dirty);
}

#[test]
fn miss_response_has_no_data() {
    let mut cache = Cache::new(config());
    cache.memory.write_line(48, &[0xFF; 16]);
    let resp = cache.access(read_req(48, 4));
    assert_eq!(resp.status, AccessStatus::Miss);
    assert_eq!(resp.rdata, 0);
    assert!(!resp.ready);
    assert!(cache.lines[3].valid);
    assert_eq!(cache.lines[3].tag, 0);
}

#[test]
fn write_response_has_no_data() {
    let mut cache = Cache::new(config());
    let first = cache.access(write_req(4, 0x0102_0304, 0xF));
    assert_eq!(first.rdata, 0);
    let second = cache.access(write_req(4, 0x0506_0708, 0xF));
    assert_eq!(second.status, AccessStatus::Hit);
    assert_eq!(second.rdata, 0);
    assert!(second.ready);
}

#[test]
fn write_hit_marks_dirty_without_touching_memory() {
    let mut cache = Cache::new(config());
    cache.access(read_req(0, 4));
    assert!(!cache.lines[0].dirty);
    cache.access(write_req(0, 0xAABB_CCDD, 0xF));
    assert!(cache.lines[0].dirty);
    assert_eq!(cache.memory.read_line(0), vec![0; 16]);
}

#[test]
fn conflicting_addresses_share_a_slot() {
    let mut cache = Cache::new(config());
    cache.memory.write_line(128, &[0x42; 16]);
    cache.access(read_req(0, 4));
    let resp = cache.access(read_req(128, 1));
    assert_eq!(resp.status, AccessStatus::Miss);
    assert_eq!(cache.lines[0].tag, 2);
    let resp = cache.access(read_req(129, 1));
    assert_eq!(resp.status, AccessStatus::Hit);
    assert_eq!(resp.rdata, 0x42);
    let resp = cache.access(read_req(0, 4));
    assert_eq!(resp.status, AccessStatus::Miss);
}

#[test]
fn written_data_survives_eviction_and_refetch() {
    let mut cache = Cache::new(config());
    cache.access(write_req(20, 0x89AB_CDEF, 0xF));
    cache.access(write_req(84, 0x1111_2222, 0x3));
    cache.access(read_req(20, 4));
    let resp = cache.access(read_req(20, 4));
    assert_eq!(resp.status, AccessStatus::Hit);
    assert_eq!(resp.rdata, 0x89AB_CDEF);
    cache.access(read_req(84, 4));
    let resp = cache.access(read_req(84, 4));
    assert_eq!(resp.rdata, 0x0000_2222);
}

#[test]
fn partial_write_then_read_merges_old_bytes() {
    let mut cache = Cache::new(config());
    cache.memory.write_line(16, &[1, 2, 3, 4, 5, 6, 7, 8, 9, 10, 11, 12, 13, 14, 15, 16]);
    cache.access(write_req(24, 0xA1B2_C3D4, 0b0110));
    let resp = cache.access(read_req(24, 4));
    assert_eq!(resp.status, AccessStatus::Hit);
    assert_eq!(resp.rdata, 0x0CB2_C309);
}

#[test]
fn address_is_cut_to_addr_width() {
    let mut cache = Cache::new(CacheConfig {
        addr_width: 8,
        cache_size: 1024,
        line_size: 16,
    });
    cache.memory.write_line(0, &[7; 16]);
    let resp = cache.access(read_req(256, 4));
    assert_eq!(resp.status, AccessStatus::Miss);
    assert!(cache.lines[0].valid);
    assert_eq!(cache.lines[0].tag, 0);
    assert!(!cache.lines[16].valid);
    let resp = cache.access(read_req(0, 4));
    assert_eq!(resp.status, AccessStatus::Hit);
    assert_eq!(resp.rdata, 0x0707_0707);
    let resp = cache.access(write_req(0x1_0010, 0xCAFE_BABE, 0xF));
    assert_eq!(resp.status, AccessStatus::Miss);
    assert!(cache.lines[1].dirty);
    let resp = cache.access(read_req(16, 4));
    assert_eq!(resp.status, AccessStatus::Hit);
    assert_eq!(resp.rdata, 0xCAFE_BABE);
}

#[test]
fn full_address_width_keeps_address() {
    let mut cache = Cache::new(CacheConfig {
        addr_width: 32,
        cache_size: 64,
        line_size: 16,
    });
    cache.memory.write_line(64, &[3; 16]);
    let resp = cache.access(read_req(64, 2));
    assert_eq!(resp.status, AccessStatus::Miss);
    assert_eq!(cache.lines[0].tag, 1);
}

#[test]
fn unaligned_read_is_refused_without_change() {
    let mut cache = Cache::new(config());
    cache.memory.write_line(0, &[1; 16]);
    let resp = cache.access(read_req(1, 2));
    assert_eq!(resp.status, AccessStatus::Miss);
    assert_eq!(resp.rdata, 0);
    assert!(resp.ready);
    assert!(!cache.lines[0].valid);
    assert_eq!(cache.memory.read_line(0), vec![1; 16]);
    let resp = cache.access(read_req(2, 4));
    assert!(resp.ready);
    assert!(!cache.lines[0].valid);
}

#[test]
fn unsupported_read_size_is_refused() {
    let mut cache = Cache::new(config());
    let resp = cache.access(read_req(0, 3));
    assert_eq!(resp.status, AccessStatus::Miss);
    assert!(resp.ready);
    assert!(!cache.lines[0].valid);
    let resp = cache.access(read_req(0, 0));
    assert!(resp.ready);
    assert!(!cache.lines[0].valid);
}

#[test]
fn unaligned_write_is_refused_without_change() {
    let mut cache = Cache::new(config());
    cache.access(write_req(0, 0x1122_3344, 0xF));
    let before = cache.lines[0].data.clone();
    let resp = cache.access(write_req(2, 0xFFFF_FFFF, 0xF));
    assert_eq!(resp.status, AccessStatus::Miss);
    assert_eq!(resp.rdata, 0);
    assert!(resp.ready);
    assert_eq!(cache.lines[0].data, before);
    let resp = cache.access(read_req(0, 4));
    assert_eq!(resp.rdata, 0x1122_3344);
}

#[test]
fn repeated_request_hits_after_miss() {
    let mut cache = Cache::new(config());
    let first = cache.access(write_req(40, 0x55, 0x1));
    assert_eq!(first.status, AccessStatus::Miss);
    assert!(!first.ready);
    let second = cache.access(write_req(40, 0x55, 0x1));
    assert_eq!(second.status, AccessStatus::Hit);
    assert!(second.ready);
}

#[test]
fn unused_request_fields_do_not_matter() {
    let mut a = Cache::new(config());
    let mut b = Cache::new(config());
    let mut r1 = read_req(8, 4);
    r1.wdata = 0xDEAD;
    r1.wmask = 0xF;
    let ra = a.access(r1);
    let rb = b.access(read_req(8, 4));
    assert_eq!(ra.status, rb.status);
    assert_eq!(ra.rdata, rb.rdata);
    assert_eq!(ra.ready, rb.ready);
    assert_eq!(a.lines[0].tag, b.lines[0].tag);
    assert_eq!(a.lines[0].data, b.lines[0].data);
}
