use devgraph::devmem::{init, Ctx, DevSlice, Device, VirMem};
use devgraph::error::Error;
use devgraph::graph::{Graph, KernelDesc, NodeKind};

fn test_memcpy_in_graph(
    ctx: &mut Ctx,
    graph: &Graph,
    dst: DevSlice,
    src: DevSlice,
    origin: impl IntoIterator<Item = u64>,
) {
    assert_eq!(dst.len, src.len);
    let origin: Vec<u64> = origin.into_iter().take(dst.len / std::mem::size_of::<u64>()).collect();
    let bytes: Vec<u8> = origin.iter().flat_map(|v| v.to_le_bytes()).collect();
    ctx.memcpy_h2d(&src, &bytes);

    let inst = ctx.instantiate(graph).unwrap();
    inst.launch(ctx).unwrap();

    let mut host = vec![0u8; dst.len];
    ctx.memcpy_d2h(&mut host, &dst);
    assert_eq!(host, bytes);
}

#[test]
fn test_capture() {
    if let Err(Error::NoDevice) = init() {
        return;
    }

    let mut ctx = Device::new(0).context();
    let dst = ctx.malloc(1 << 10);
    let src = ctx.malloc(1 << 10);

    let mut stream = ctx.stream().capture();
    stream.memcpy_d2d(&dst, &src);
    let graph = stream.end();
    let nodes = graph.nodes();
    assert_eq!(nodes.len(), 1);
    let NodeKind::Memcpy(params) = &nodes[0].kind else {
        panic!()
    };
    assert_eq!(params.width_in_bytes, 1 << 10);
    println!("{params:#x?}")
}

#[test]
fn test_d2d() {
    if let Err(Error::NoDevice) = init() {
        return;
    }

    let mut ctx = Device::new(0).context();
    let src = ctx.malloc(2 << 10);
    let dst = ctx.malloc(2 << 10);

    let mut graph = Graph::new();
    graph.add_memcpy_d2d(&dst, &src, vec![]);
    test_memcpy_in_graph(&mut ctx, &graph, dst, src, 0..u64::MAX);
}

#[test]
fn test_vm() {
    if let Err(Error::NoDevice) = init() {
        return;
    }

    let dev = Device::new(0);
    let prop = dev.mem_prop();
    let minium = prop.granularity_minimum();
    let mut ctx = dev.context();

    let dst_vir = VirMem::new(&mut ctx, minium).unwrap();
    let src_vir = VirMem::new(&mut ctx, minium).unwrap();
    let dst = dst_vir.map(&mut ctx, 0, prop.create(minium).unwrap()).unwrap();
    let src = src_vir.map(&mut ctx, 0, prop.create(minium).unwrap()).unwrap();

    let mut graph = Graph::new();
    // a memcpy node must target mapped ranges when recorded, but it captures
    // the addresses, not the mappings
    graph.add_memcpy_d2d(&dst, &src, vec![]);

    let phy0 = prop.create(minium).unwrap();
    let phy1 = prop.create(minium).unwrap();
    let phy2 = prop.create(minium).unwrap();
    let phy3 = prop.create(minium).unwrap();

    let _ = dst_vir.unmap(&mut ctx, 0).unwrap();
    let _ = src_vir.unmap(&mut ctx, 0).unwrap();
    let dst = dst_vir.map(&mut ctx, 0, phy0).unwrap();
    let src = src_vir.map(&mut ctx, 0, phy1).unwrap();
    test_memcpy_in_graph(&mut ctx, &graph, dst, src, 0..);

    let _phy0 = dst_vir.unmap(&mut ctx, 0).unwrap();
    let _phy1 = src_vir.unmap(&mut ctx, 0).unwrap();
    let dst = dst_vir.map(&mut ctx, 0, phy2).unwrap();
    let src = src_vir.map(&mut ctx, 0, phy3).unwrap();
    test_memcpy_in_graph(&mut ctx, &graph, dst, src, (0..u64::MAX).rev());
}

#[test]
fn capture_and_explicit_record_identical_graphs() {
    let mut ctx = Device::new(0).context();
    let a = ctx.malloc(64);
    let b = ctx.malloc(64);
    let c = ctx.malloc(64);

    let mut explicit = Graph::new();
    explicit.record_copies_in_order(&vec![(b, a), (c, b)]);

    let mut stream = ctx.stream().capture();
    stream.memcpy_d2d(&b, &a);
    stream.memcpy_d2d(&c, &b);
    let captured = stream.end();

    let en = explicit.nodes();
    let cn = captured.nodes();
    assert_eq!(en.len(), cn.len());
    for i in 0..en.len() {
        assert_eq!(en[i].deps, cn[i].deps);
        let NodeKind::Memcpy(ed) = &en[i].kind else {
            panic!()
        };
        let NodeKind::Memcpy(cd) = &cn[i].kind else {
            panic!()
        };
        assert_eq!(ed, cd);
    }

    let payload: Vec<u8> = (0u8..64).collect();
    ctx.memcpy_h2d(&a, &payload);
    let inst = ctx.instantiate(&explicit).unwrap();
    inst.launch(&mut ctx).unwrap();
    let mut out = vec![0u8; 64];
    ctx.memcpy_d2h(&mut out, &c);
    assert_eq!(out, payload);
}

#[test]
fn vm_remap_same_block_is_noop() {
    let dev = Device::new(0);
    let prop = dev.mem_prop();
    let g = prop.granularity_minimum();
    let mut ctx = dev.context();

    let vir = VirMem::new(&mut ctx, g).unwrap();
    let slice = vir.map(&mut ctx, 0, prop.create(g).unwrap()).unwrap();
    let payload: Vec<u8> = (0..g).map(|i| (i % 251) as u8).collect();
    ctx.memcpy_h2d(&slice, &payload);

    let phys = vir.unmap(&mut ctx, 0).unwrap();
    let slice = vir.map(&mut ctx, 0, phys).unwrap();

    let mut out = vec![0u8; g];
    ctx.memcpy_d2h(&mut out, &slice);
    assert_eq!(out, payload);
}

#[test]
fn map_conflict_and_alignment_errors() {
    let dev = Device::new(0);
    let prop = dev.mem_prop();
    let g = prop.granularity_minimum();
    let mut ctx = dev.context();

    assert!(matches!(prop.create(g - 1), Err(Error::InvalidAlignment)));
    assert!(matches!(prop.create(0), Err(Error::InvalidAlignment)));

    let vir = VirMem::new(&mut ctx, g).unwrap();
    let _mapped = vir.map(&mut ctx, 0, prop.create(g).unwrap()).unwrap();
    let again = vir.map(&mut ctx, 0, prop.create(g).unwrap());
    assert!(matches!(again, Err(Error::MapConflict)));

    let out_of_range = vir.map(&mut ctx, g, prop.create(g).unwrap());
    assert!(matches!(out_of_range, Err(Error::InvalidAlignment)));

    let missing = vir.unmap(&mut ctx, 0).unwrap();
    assert_eq!(missing.len(), g);
    assert!(matches!(vir.unmap(&mut ctx, 0), Err(Error::NotMapped)));
}

#[test]
fn launch_after_unmap_is_refused() {
    let dev = Device::new(0);
    let prop = dev.mem_prop();
    let g = prop.granularity_minimum();
    let mut ctx = dev.context();

    let vir = VirMem::new(&mut ctx, g).unwrap();
    let slice = vir.map(&mut ctx, 0, prop.create(g).unwrap()).unwrap();
    let other = ctx.malloc(g);

    let mut graph = Graph::new();
    graph.add_memcpy_d2d(&other, &slice, vec![]);
    let inst = ctx.instantiate(&graph).unwrap();

    let _phys = vir.unmap(&mut ctx, 0).unwrap();
    assert!(matches!(inst.launch(&mut ctx), Err(Error::NotMapped)));
}

#[test]
fn readded_memcpy_node_repeats_the_copy() {
    let mut ctx = Device::new(0).context();
    let a = ctx.malloc(32);
    let b = ctx.malloc(32);
    let c = ctx.malloc(32);

    let mut graph = Graph::new();
    let anchor = graph.add_empty(vec![]);
    let first = graph.add_memcpy_d2d(&b, &a, vec![anchor]);
    // reads the captured descriptor back and records it again under new
    // dependencies: same parameters, so it repeats the same copy
    graph.add_memcpy_node(first, vec![first]);
    let tail = graph.add_memcpy_d2d(&c, &b, vec![first]);
    assert_eq!(tail, 3);

    let payload: Vec<u8> = (100u8..132).collect();
    ctx.memcpy_h2d(&a, &payload);
    let inst = ctx.instantiate(&graph).unwrap();
    inst.launch(&mut ctx).unwrap();

    let mut out = vec![0u8; 32];
    ctx.memcpy_d2h(&mut out, &c);
    assert_eq!(out, payload);
}

#[test]
fn kernel_nodes_cannot_be_instantiated_without_a_driver() {
    let mut ctx = Device::new(0).context();
    let mut graph = Graph::new();
    graph.add_kernel_node(
        KernelDesc {
            func: 0,
            grid: (1, 1, 1),
            block: (1, 1, 1),
            shared_mem_bytes: 0,
            params: vec![],
        },
        vec![],
    );
    assert!(matches!(ctx.instantiate(&graph), Err(Error::InvalidLaunchConfig)));
}
