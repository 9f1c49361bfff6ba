use bootloader::bootinfo::{FrameRange, MemoryMap, MemoryRegion, MemoryRegionType};
use os_core::memory::translate::{entry_frame, phys_to_virt, FrameError, PageWalk, WalkStep};
use os_core::memory::{BootInfoFrameAllocator, EmptyFrameAllocator, PhysFrame};
use std::collections::HashMap;

fn map_of(regions: &[(u64, u64, MemoryRegionType)]) -> &'static MemoryMap {
    let mut map = MemoryMap::new();
    for (start, end, region_type) in regions {
        map.add_region(MemoryRegion {
            range: FrameRange::new(*start, *end),
            region_type: *region_type,
        });
    }
    Box::leak(Box::new(map))
}

fn translate(tables: &HashMap<(u64, u16), u64>, root: u64, addr: u64) -> Option<Option<u64>> {
    let mut walk = PageWalk::start(addr, PhysFrame::containing_address(root));
    loop {
        let key = (walk.table().start_address(), walk.index());
        let entry = tables.get(&key).copied().unwrap_or(0);
        match walk.step(entry) {
            WalkStep::Descend(next) => walk = next,
            WalkStep::Mapped(phys) => return Some(Some(phys)),
            WalkStep::NotMapped => return Some(None),
            WalkStep::HugePage => return None,
        }
    }
}

#[test]
fn frame_contains_address() {
    assert_eq!(PhysFrame::containing_address(0).start_address(), 0);
    assert_eq!(PhysFrame::containing_address(0x1234).start_address(), 0x1000);
    assert_eq!(PhysFrame::containing_address(0xb8000).start_address(), 0xb8000);
    assert_eq!(PhysFrame::containing_address(0xb8fff).start_address(), 0xb8000);
    assert_eq!(
        PhysFrame::containing_address(0xf_ffff_ffff_ffff).start_address(),
        0xf_ffff_ffff_f000
    );
}

#[test]
fn empty_allocator_has_no_frame() {
    let mut allocator = EmptyFrameAllocator;
    assert!(allocator.allocate_frame().is_none());
    assert!(allocator.allocate_frame().is_none());
}

#[test]
fn frames_of_usable_regions_in_order() {
    let map = map_of(&[
        (0x0000, 0x1000, MemoryRegionType::FrameZero),
        (0x1000, 0x4000, MemoryRegionType::Usable),
        (0x4000, 0x8000, MemoryRegionType::Kernel),
        (0x10000, 0x12000, MemoryRegionType::Usable),
        (0x20000, 0x21000, MemoryRegionType::Reserved),
    ]);
    let mut allocator = BootInfoFrameAllocator::init(map);
    let expected = [0x1000u64, 0x2000, 0x3000, 0x10000, 0x11000];
    for start in expected {
        assert_eq!(allocator.allocate_frame().unwrap().start_address(), start);
    }
    assert!(allocator.allocate_frame().is_none());
    assert!(allocator.allocate_frame().is_none());
    assert_eq!(allocator.next(), 7);
}

#[test]
fn frames_are_distinct_and_aligned() {
    let map = map_of(&[
        (0x100000, 0x140000, MemoryRegionType::Usable),
        (0x140000, 0x150000, MemoryRegionType::Bootloader),
        (0x200000, 0x208000, MemoryRegionType::Usable),
    ]);
    let mut allocator = BootInfoFrameAllocator::init(map);
    let count = 0x40 + 8;
    let mut seen: Vec<u64> = Vec::new();
    for _ in 0..count {
        let start = allocator.allocate_frame().unwrap().start_address();
        assert_eq!(start % 4096, 0);
        assert!(!seen.contains(&start));
        seen.push(start);
    }
    assert!(allocator.allocate_frame().is_none());
    assert_eq!(seen[0], 0x100000);
    assert_eq!(seen[0x3f], 0x13f000);
    assert_eq!(seen[0x40], 0x200000);
    assert_eq!(seen[0x47], 0x207000);
}

#[test]
fn frame_at_does_not_count() {
    let map = map_of(&[(0x5000, 0x7000, MemoryRegionType::Usable)]);
    let allocator = BootInfoFrameAllocator::init(map);
    assert_eq!(allocator.frame_at(1).unwrap().start_address(), 0x6000);
    assert_eq!(allocator.frame_at(0).unwrap().start_address(), 0x5000);
    assert!(allocator.frame_at(2).is_none());
    assert!(allocator.frame_at(usize::MAX).is_none());
    assert_eq!(allocator.next(), 0);
}

#[test]
fn usable_frames_lists_all() {
    let map = map_of(&[
        (0x3000, 0x5000, MemoryRegionType::Usable),
        (0x5000, 0x6000, MemoryRegionType::AcpiNvs),
        (0x8000, 0x9000, MemoryRegionType::Usable),
    ]);
    let mut allocator = BootInfoFrameAllocator::init(map);
    allocator.allocate_frame();
    let starts: Vec<u64> = allocator.usable_frames().iter().map(|f| f.start_address()).collect();
    assert_eq!(starts, vec![0x3000, 0x4000, 0x8000]);
}

#[test]
fn map_without_usable_region_has_no_frame() {
    let map = map_of(&[
        (0x0000, 0x1000, MemoryRegionType::FrameZero),
        (0x1000, 0x9000, MemoryRegionType::InUse),
    ]);
    let mut allocator = BootInfoFrameAllocator::init(map);
    assert!(allocator.allocate_frame().is_none());
    assert!(allocator.usable_frames().is_empty());
    let empty: &'static MemoryMap = Box::leak(Box::new(MemoryMap::new()));
    let mut none = BootInfoFrameAllocator::init(empty);
    assert!(none.allocate_frame().is_none());
}

#[test]
fn try_init_accepts_addressable_frames() {
    let map = map_of(&[(0x1000, 0x3000, MemoryRegionType::Usable)]);
    let mut allocator = BootInfoFrameAllocator::try_init(map).unwrap();
    assert_eq!(allocator.allocate_frame().unwrap().start_address(), 0x1000);
    let top = map_of(&[(0xf_ffff_ffff_e000, 0x10_0000_0000_0000, MemoryRegionType::Usable)]);
    let mut high = BootInfoFrameAllocator::try_init(top).unwrap();
    assert_eq!(high.allocate_frame().unwrap().start_address(), 0xf_ffff_ffff_e000);
    assert_eq!(high.allocate_frame().unwrap().start_address(), 0xf_ffff_ffff_f000);
    assert!(high.allocate_frame().is_none());
}

#[test]
fn try_init_rejects_frames_without_address() {
    let map = map_of(&[
        (0x1000, 0x3000, MemoryRegionType::Usable),
        (0xf_ffff_ffff_f000, 0x10_0000_0000_1000, MemoryRegionType::Usable),
    ]);
    assert!(BootInfoFrameAllocator::try_init(map).is_none());
    let reserved = map_of(&[(0xf_ffff_ffff_f000, 0x10_0000_0000_1000, MemoryRegionType::Reserved)]);
    assert!(BootInfoFrameAllocator::try_init(reserved).is_some());
}

#[test]
fn entry_frame_reads_flags_and_address() {
    assert_eq!(entry_frame(0).map(|f| f.start_address()), Err(FrameError::FrameNotPresent));
    assert_eq!(
        entry_frame(0x0000_0000_0040_3006).map(|f| f.start_address()),
        Err(FrameError::FrameNotPresent)
    );
    assert_eq!(entry_frame(0x0000_0000_0040_3003).map(|f| f.start_address()), Ok(0x40_3000));
    assert_eq!(
        entry_frame(0x8000_0000_0040_3fff & !0x80).map(|f| f.start_address()),
        Ok(0x40_3000)
    );
    assert_eq!(
        entry_frame(0x0000_0000_0020_0083).map(|f| f.start_address()),
        Err(FrameError::HugeFrame)
    );
    assert_eq!(
        entry_frame(0xfff0_0000_0000_0f7f).map(|f| f.start_address()),
        Ok(0)
    );
    assert_eq!(
        entry_frame(0xffff_ffff_ffff_ff7f).map(|f| f.start_address()),
        Ok(0x000f_ffff_ffff_f000)
    );
}

#[test]
fn walk_starts_at_level_four() {
    let addr: u64 = (1 << 39) | (2 << 30) | (3 << 21) | (4 << 12) | 5;
    let walk = PageWalk::start(addr, PhysFrame::containing_address(0x1000));
    assert_eq!(walk.level(), 4);
    assert_eq!(walk.index(), 1);
    assert_eq!(walk.table().start_address(), 0x1000);
}

#[test]
fn walk_reads_an_index_of_each_level() {
    let addr: u64 = (0x1ff << 39) | (0x0aa << 30) | (0x155 << 21) | (0x001 << 12) | 0xabc;
    let walk = PageWalk::start(addr, PhysFrame::containing_address(0x1000));
    assert_eq!(walk.index(), 0x1ff);
    let walk = match walk.step(0x2003) {
        WalkStep::Descend(next) => next,
        _ => panic!("the walk should go on"),
    };
    assert_eq!((walk.level(), walk.index(), walk.table().start_address()), (3, 0x0aa, 0x2000));
    let walk = match walk.step(0x3003) {
        WalkStep::Descend(next) => next,
        _ => panic!("the walk should go on"),
    };
    assert_eq!((walk.level(), walk.index(), walk.table().start_address()), (2, 0x155, 0x3000));
    let walk = match walk.step(0x4003) {
        WalkStep::Descend(next) => next,
        _ => panic!("the walk should go on"),
    };
    assert_eq!((walk.level(), walk.index(), walk.table().start_address()), (1, 0x001, 0x4000));
    match walk.step(0xb8003) {
        WalkStep::Mapped(phys) => assert_eq!(phys, 0xb8abc),
        _ => panic!("the walk should end at a frame"),
    }
}

#[test]
fn walk_ignores_high_bits_of_address() {
    let low: u64 = 0x0000_7fff_ffff_f123;
    let high: u64 = 0xffff_8000_0000_0fff;
    let walk = PageWalk::start(low, PhysFrame::containing_address(0));
    assert_eq!(walk.index(), 0x0ff);
    let walk = PageWalk::start(high, PhysFrame::containing_address(0));
    assert_eq!(walk.index(), 0x100);
    let odd: u64 = 0x1234_0000_0000_0000 | (7 << 39);
    let walk = PageWalk::start(odd, PhysFrame::containing_address(0));
    assert_eq!(walk.index(), 7);
}

#[test]
fn translate_mapped_address() {
    let addr: u64 = (3 << 39) | (5 << 30) | (7 << 21) | (9 << 12) | 0x234;
    let mut tables: HashMap<(u64, u16), u64> = HashMap::new();
    tables.insert((0x1000, 3), 0x2000 | 0x3);
    tables.insert((0x2000, 5), 0x3000 | 0x3);
    tables.insert((0x3000, 7), 0x4000 | 0x3);
    tables.insert((0x4000, 9), 0xb8000 | 0x3);
    assert_eq!(translate(&tables, 0x1000, addr), Some(Some(0xb8234)));
    assert_eq!(translate(&tables, 0x1000, addr & !0xfff), Some(Some(0xb8000)));
    assert_eq!(translate(&tables, 0x1000, addr | 0xfff), Some(Some(0xb8fff)));
}

#[test]
fn translate_keeps_offset_bits() {
    let frame: u64 = 0x000f_ffff_ffff_f000;
    let mut tables: HashMap<(u64, u16), u64> = HashMap::new();
    tables.insert((0x1000, 0), 0x2000 | 0x1);
    tables.insert((0x2000, 0), 0x3000 | 0x1);
    tables.insert((0x3000, 0), 0x4000 | 0x1);
    tables.insert((0x4000, 1), frame | 0x8000_0000_0000_0001);
    for offset in [0u64, 1, 0x7ff, 0x800, 0xfff] {
        let addr = 0x1000 | offset;
        assert_eq!(translate(&tables, 0x1000, addr), Some(Some(frame | offset)));
    }
}

#[test]
fn translate_unmapped_address() {
    let addr: u64 = (3 << 39) | (5 << 30) | (7 << 21) | (9 << 12) | 0x234;
    let mut tables: HashMap<(u64, u16), u64> = HashMap::new();
    assert_eq!(translate(&tables, 0x1000, addr), Some(None));
    tables.insert((0x1000, 3), 0x2000 | 0x3);
    tables.insert((0x2000, 5), 0x3000 | 0x3);
    assert_eq!(translate(&tables, 0x1000, addr), Some(None));
    tables.insert((0x3000, 7), 0x4000 | 0x3);
    tables.insert((0x4000, 9), 0xb8000 | 0x2);
    assert_eq!(translate(&tables, 0x1000, addr), Some(None));
    assert_eq!(translate(&tables, 0x1000, addr + 0x1000), Some(None));
}

#[test]
fn translate_stops_at_huge_page() {
    let addr: u64 = (3 << 39) | (5 << 30) | (7 << 21) | (9 << 12) | 0x234;
    let mut tables: HashMap<(u64, u16), u64> = HashMap::new();
    tables.insert((0x1000, 3), 0x2000 | 0x3);
    tables.insert((0x2000, 5), 0x3000 | 0x3);
    tables.insert((0x3000, 7), 0x20_0000 | 0x83);
    assert_eq!(translate(&tables, 0x1000, addr), None);
    tables.insert((0x3000, 7), 0x20_0000 | 0x82);
    assert_eq!(translate(&tables, 0x1000, addr), Some(None));
}

#[test]
fn phys_to_virt_adds_offset() {
    assert_eq!(phys_to_virt(0, 0x1000), Some(0x1000));
    assert_eq!(phys_to_virt(0x0000_1000_0000_0000, 0x2000), Some(0x0000_1000_0000_2000));
    assert_eq!(phys_to_virt(0xffff_8000_0000_0000, 0xb8000), Some(0xffff_8000_000b_8000));
    assert_eq!(phys_to_virt(0x0000_7fff_ffff_f000, 0xfff), Some(0x0000_7fff_ffff_ffff));
}

#[test]
fn phys_to_virt_extends_sign() {
    assert_eq!(phys_to_virt(0x0000_7fff_ffff_f000, 0x1000), Some(0xffff_8000_0000_0000));
    assert_eq!(phys_to_virt(0x0000_8000_0000_0000, 0x123), Some(0xffff_8000_0000_0123));
}

#[test]
fn phys_to_virt_rejects_other_addresses() {
    assert_eq!(phys_to_virt(0x0001_0000_0000_0000, 0), None);
    assert_eq!(phys_to_virt(0x8000_0000_0000_0000, 0x1000), None);
    assert_eq!(phys_to_virt(0xffff_7fff_ffff_f000, 0xfff), None);
    assert_eq!(phys_to_virt(0xffff_ffff_ffff_f000, 0x1000), None);
    assert_eq!(phys_to_virt(u64::MAX, 1), None);
}

#[test]
fn walk_names_table_address() {
    let walk = PageWalk::start(0, PhysFrame::containing_address(0x5000));
    assert_eq!(walk.table_address(0xffff_8000_0000_0000), Some(0xffff_8000_0000_5000));
    assert_eq!(walk.table_address(0), Some(0x5000));
    assert_eq!(walk.table_address(0x0008_0000_0000_0000), None);
}

#[test]
fn overlapping_usable_regions_repeat_frames() {
    let mut map = MemoryMap::new();
    map.add_region(MemoryRegion {
        range: FrameRange::new(0x1000, 0x3000),
        region_type: MemoryRegionType::Usable,
    });
    map.add_region(MemoryRegion {
        range: FrameRange::new(0x2000, 0x4000),
        region_type: MemoryRegionType::Usable,
    });
    let mut allocator = BootInfoFrameAllocator::init(Box::leak(Box::new(map)));
    let starts: Vec<u64> =
        (0..4).map(|_| allocator.allocate_frame().unwrap().start_address()).collect();
    assert_eq!(starts, vec![0x1000, 0x2000, 0x2000, 0x3000]);
    assert!(allocator.allocate_frame().is_none());
}
