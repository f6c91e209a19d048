use devgraph::devmem::{Device, DevSlice};
use devgraph::error::Error;
use devgraph::loader::{WeightLoader, WeightTable};
use devgraph::planner::MemCalculator;

#[test]
fn planner_aligned_pushes() {
    let mut c = MemCalculator::new(512);
    let r0 = c.push(600);
    assert_eq!((r0.base, r0.len), (0, 600));
    let r1 = c.push(100);
    assert_eq!((r1.base, r1.len), (1024, 100));
    let r2 = c.push(1);
    assert_eq!((r2.base, r2.len), (1536, 1));
    assert_eq!(c.size(), 2048);
}

#[test]
fn planner_ranges_disjoint_and_monotonic() {
    let mut c = MemCalculator::new(64);
    let lens = [1usize, 64, 65, 3, 128, 1];
    let mut ranges = Vec::new();
    for len in lens {
        ranges.push(c.push(len));
    }
    for i in 0..ranges.len() {
        assert_eq!(ranges[i].base % 64, 0);
        for j in 0..ranges.len() {
            if i != j {
                let a = ranges[i];
                let b = ranges[j];
                assert!(a.base + a.len <= b.base || b.base + b.len <= a.base);
            }
        }
    }
    for w in ranges.windows(2) {
        assert!(w[0].base <= w[1].base);
    }
    let size = c.size();
    for r in &ranges {
        assert!(r.base + r.len <= size);
    }
}

#[test]
fn planner_zero_length_push() {
    let mut c = MemCalculator::new(8);
    let r0 = c.push(0);
    assert_eq!((r0.base, r0.len), (0, 0));
    let r1 = c.push(5);
    assert_eq!((r1.base, r1.len), (0, 5));
    assert_eq!(c.size(), 8);
}

#[test]
fn dedup_same_pointer_same_length_reuses_range() {
    let mut t = WeightTable::new(512);
    let a = t.register(0x1000, 600).unwrap();
    let b = t.register(0x2000, 100).unwrap();
    let again = t.register(0x1000, 600).unwrap();
    assert_eq!(a, again);
    assert_ne!(a, b);
    assert_eq!(t.size(), 1536);
}

#[test]
fn dedup_same_pointer_different_length_is_alias_error() {
    let mut t = WeightTable::new(512);
    let _ = t.register(0x1000, 600).unwrap();
    assert_eq!(t.register(0x1000, 100), Err(Error::PlannerAliasLenMismatch));
}

#[test]
fn staging_sizes_keep_rare_lengths() {
    let mut t = WeightTable::new(16);
    // three tensors of 32 bytes, one of 48, two of 64
    t.register(0x10, 32).unwrap();
    t.register(0x20, 32).unwrap();
    t.register(0x30, 32).unwrap();
    t.register(0x40, 48).unwrap();
    t.register(0x50, 64).unwrap();
    t.register(0x60, 64).unwrap();
    // with three blocks, lengths seen fewer than three times are staged
    assert_eq!(t.staging_sizes(3), vec![48, 64]);
    assert_eq!(t.staging_sizes(1), Vec::<usize>::new());
    assert_eq!(t.staging_sizes(100), vec![32, 48, 64]);
}

#[test]
fn loader_lands_weights_at_planned_offsets() {
    let mut table = WeightTable::new(512);
    let weights: Vec<(usize, Vec<u8>)> = vec![
        (0xa000, (0u8..100).collect()),
        (0xb000, vec![7u8; 600]),
        (0xc000, (0u8..=255).cycle().take(513).collect()),
    ];
    let mut ranges = Vec::new();
    for (ptr, data) in &weights {
        ranges.push(table.register(*ptr, data.len()).unwrap());
    }
    let total = table.size();

    let mut ctx = Device::new(0).context();
    let buffer = ctx.malloc(total);
    let sizes = table.staging_sizes(2);
    let mut loader = WeightLoader::new(&sizes);
    let stream = ctx.stream();

    for ((_, data), range) in weights.iter().zip(&ranges) {
        let dst = DevSlice { addr: buffer.addr + range.base, len: range.len };
        loader.load(&mut ctx, &dst, data, &stream);
    }

    let mut packed = vec![0u8; total];
    ctx.memcpy_d2h(&mut packed, &buffer);
    for ((_, data), range) in weights.iter().zip(&ranges) {
        assert_eq!(&packed[range.base..range.base + range.len], &data[..]);
    }
}

#[test]
fn loader_reload_is_idempotent() {
    let mut ctx = Device::new(0).context();
    let buffer = ctx.malloc(256);
    let mut loader = WeightLoader::new(&vec![256]);
    let stream = ctx.stream();
    let data: Vec<u8> = (0u8..=255).collect();

    loader.load(&mut ctx, &buffer, &data, &stream);
    loader.load(&mut ctx, &buffer, &data, &stream);

    let mut out = vec![0u8; 256];
    ctx.memcpy_d2h(&mut out, &buffer);
    assert_eq!(out, data);
}
