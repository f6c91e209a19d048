use vstd::prelude::*;

use crate::devmem::{byte_at, mapped, range_mapped, val_at, same_layout, wf_entries, write_byte_s,
    write_range_s, Span};
use crate::devmem::lemma_write_range;
use crate::devmem::{lemma_same_layout_mapped, lemma_write_byte_s, lemma_holder_props,
    lemma_mapped_in_range};
use crate::devmem::{Ctx, DevSlice};
use crate::error::Error;

verus! {

/// Kind of memory a copy endpoint lives in.
#[derive(Clone, Copy, PartialEq, Eq, Structural, Debug)]
pub enum MemKind {
    Device,
    Host,
    Array,
}

/// Three-dimensional copy descriptor: base addresses, per-dimension offsets
/// and strides, and an extent in bytes / rows / planes. This generic form is
/// the authoritative description of a memcpy node; the convenience
/// constructors fill in the common cases.
#[derive(Clone, Copy, PartialEq, Eq, Structural, Debug)]
pub struct MemcpyDesc {
    pub src_x_in_bytes: usize,
    pub src_y: usize,
    pub src_z: usize,
    pub src_memory_type: MemKind,
    pub src_device: usize,
    pub src_pitch: usize,
    pub src_height: usize,
    pub dst_x_in_bytes: usize,
    pub dst_y: usize,
    pub dst_z: usize,
    pub dst_memory_type: MemKind,
    pub dst_device: usize,
    pub dst_pitch: usize,
    pub dst_height: usize,
    pub width_in_bytes: usize,
    pub height: usize,
    pub depth: usize,
}

/// One endpoint of a copy: base address plus the offsets and strides that
/// place element `(z, y, i)` in the device address space.
pub ghost struct Region {
    pub base: int,
    pub x0: int,
    pub y0: int,
    pub z0: int,
    pub pitch: int,
    pub rheight: int,
}

/// Address of byte `(z, y, i)` of the region.
pub open spec fn region_addr(r: Region, z: int, y: int, i: int) -> int {
    r.base + ((r.z0 + z) * r.rheight + (r.y0 + y)) * r.pitch + r.x0 + i
}

/// Addresses of bytes `[0, i)` of row `(z, y)`, in order.
pub open spec fn row_addrs(r: Region, z: int, y: int, i: int) -> Seq<int>
    decreases i,
{
    if i <= 0 {
        Seq::empty()
    } else {
        row_addrs(r, z, y, i - 1).push(region_addr(r, z, y, i - 1))
    }
}

/// Addresses of the full rows `[0, y)` of plane `z`, in order.
pub open spec fn plane_addrs(r: Region, w: int, z: int, y: int) -> Seq<int>
    decreases y,
{
    if y <= 0 {
        Seq::empty()
    } else {
        plane_addrs(r, w, z, y - 1) + row_addrs(r, z, y - 1, w)
    }
}

/// Addresses of the full planes `[0, z)`, in order.
pub open spec fn region_addrs(r: Region, w: int, h: int, z: int) -> Seq<int>
    decreases z,
{
    if z <= 0 {
        Seq::empty()
    } else {
        region_addrs(r, w, h, z - 1) + plane_addrs(r, w, z - 1, h)
    }
}

/// A row holds one address per byte.
pub proof fn lemma_row_len(r: Region, z: int, y: int, i: int)
    requires
        i >= 0,
    ensures
        row_addrs(r, z, y, i).len() == i,
    decreases i,
{
    if i > 0 {
        lemma_row_len(r, z, y, i - 1);
    }
}

/// A plane of `y` rows of width `w` holds `y * w` addresses.
pub proof fn lemma_plane_len(r: Region, w: int, z: int, y: int)
    requires
        w >= 0,
        y >= 0,
    ensures
        plane_addrs(r, w, z, y).len() == y * w,
    decreases y,
{
    if y > 0 {
        lemma_plane_len(r, w, z, y - 1);
        lemma_row_len(r, z, y - 1, w);
        assert((y - 1) * w + w == y * w) by (nonlinear_arith);
    } else {
        assert(y * w == 0) by (nonlinear_arith)
            requires
                y == 0,
        ;
    }
}

/// A region of `z` planes, `h` rows each, of width `w` holds `z * h * w`
/// addresses: the two endpoints of a copy always pair up byte for byte.
pub proof fn lemma_region_len(r: Region, w: int, h: int, z: int)
    requires
        w >= 0,
        h >= 0,
        z >= 0,
    ensures
        region_addrs(r, w, h, z).len() == z * h * w,
    decreases z,
{
    if z > 0 {
        lemma_region_len(r, w, h, z - 1);
        lemma_plane_len(r, w, z - 1, h);
        assert((z - 1) * h * w + h * w == z * h * w) by (nonlinear_arith);
    } else {
        assert(z * h * w == 0) by (nonlinear_arith)
            requires
                z == 0,
        ;
    }
}

/// Source endpoint of a descriptor.
pub open spec fn src_region(d: MemcpyDesc) -> Region {
    Region {
        base: d.src_device as int,
        x0: d.src_x_in_bytes as int,
        y0: d.src_y as int,
        z0: d.src_z as int,
        pitch: d.src_pitch as int,
        rheight: d.src_height as int,
    }
}

/// Destination endpoint of a descriptor.
pub open spec fn dst_region(d: MemcpyDesc) -> Region {
    Region {
        base: d.dst_device as int,
        x0: d.dst_x_in_bytes as int,
        y0: d.dst_y as int,
        z0: d.dst_z as int,
        pitch: d.dst_pitch as int,
        rheight: d.dst_height as int,
    }
}

/// All source addresses the copy reads, in element order.
pub open spec fn src_addrs(d: MemcpyDesc) -> Seq<int> {
    region_addrs(src_region(d), d.width_in_bytes as int, d.height as int, d.depth as int)
}

/// All destination addresses the copy writes, in element order.
pub open spec fn dst_addrs(d: MemcpyDesc) -> Seq<int> {
    region_addrs(dst_region(d), d.width_in_bytes as int, d.height as int, d.depth as int)
}

/// The bytes visible at the given addresses.
pub open spec fn gather_s(s: Seq<Span>, addrs: Seq<int>) -> Seq<u8> {
    Seq::new(addrs.len(), |k: int| val_at(s, addrs[k]))
}

/// The table after writing `vals` to `dsts`, in order.
pub open spec fn scatter_s(s: Seq<Span>, dsts: Seq<int>, vals: Seq<u8>) -> Seq<Span>
    decreases dsts.len(),
{
    if dsts.len() == 0 {
        s
    } else {
        write_byte_s(
            scatter_s(s, dsts.drop_last(), vals.drop_last()),
            dsts.last(),
            vals.last(),
        )
    }
}

/// Every address the copy touches is currently mapped. A descriptor whose
/// addresses fall outside the address space is never ok.
pub open spec fn desc_ok(s: Seq<Span>, d: MemcpyDesc) -> bool {
    &&& d.src_memory_type == MemKind::Device
    &&& d.dst_memory_type == MemKind::Device
    &&& forall|k: int|
        0 <= k < src_addrs(d).len() ==> mapped(s, #[trigger] src_addrs(d)[k])
    &&& forall|k: int|
        0 <= k < dst_addrs(d).len() ==> mapped(s, #[trigger] dst_addrs(d)[k])
}

/// The table after the copy: every source byte is read first, then all of
/// them are written to the destination addresses in element order.
pub open spec fn apply_desc(s: Seq<Span>, d: MemcpyDesc) -> Seq<Span> {
    scatter_s(s, dst_addrs(d), gather_s(s, src_addrs(d)))
}

/// The region described by plain parameter values.
pub open spec fn mk_region(
    base: usize,
    x0: usize,
    y0: usize,
    z0: usize,
    pitch: usize,
    rheight: usize,
) -> Region {
    Region {
        base: base as int,
        x0: x0 as int,
        y0: y0 as int,
        z0: z0 as int,
        pitch: pitch as int,
        rheight: rheight as int,
    }
}

/// The executable address list agrees with the specified one.
pub open spec fn addrs_match(v: Seq<usize>, a: Seq<int>) -> bool {
    &&& v.len() == a.len()
    &&& forall|k: int| 0 <= k < a.len() ==> (#[trigger] v[k]) as int == a[k]
}

/// Every byte of a row stands in the row's address list.
pub proof fn lemma_row_contains(r: Region, z: int, y: int, w: int, i: int)
    requires
        0 <= i < w,
    ensures
        exists|k: int|
            0 <= k < row_addrs(r, z, y, w).len() && #[trigger] row_addrs(r, z, y, w)[k]
                == region_addr(r, z, y, i),
    decreases w,
{
    lemma_row_len(r, z, y, w);
    if i == w - 1 {
        assert(row_addrs(r, z, y, w)[w - 1] == region_addr(r, z, y, w - 1));
    } else {
        lemma_row_contains(r, z, y, w - 1, i);
        let k = choose|k: int|
            0 <= k < row_addrs(r, z, y, w - 1).len() && #[trigger] row_addrs(r, z, y, w - 1)[k]
                == region_addr(r, z, y, i);
        assert(row_addrs(r, z, y, w)[k] == region_addr(r, z, y, i));
    }
}

/// Every byte of a plane stands in the plane's address list.
pub proof fn lemma_plane_contains(r: Region, w: int, z: int, h: int, y: int, i: int)
    requires
        0 <= y < h,
        0 <= i < w,
    ensures
        exists|k: int|
            0 <= k < plane_addrs(r, w, z, h).len() && #[trigger] plane_addrs(r, w, z, h)[k]
                == region_addr(r, z, y, i),
    decreases h,
{
    if y == h - 1 {
        lemma_row_contains(r, z, y, w, i);
        let k = choose|k: int|
            0 <= k < row_addrs(r, z, y, w).len() && #[trigger] row_addrs(r, z, y, w)[k]
                == region_addr(r, z, y, i);
        let off = plane_addrs(r, w, z, h - 1).len() as int;
        assert(plane_addrs(r, w, z, h)[off + k] == region_addr(r, z, y, i));
    } else {
        lemma_plane_contains(r, w, z, h - 1, y, i);
        let k = choose|k: int|
            0 <= k < plane_addrs(r, w, z, h - 1).len() && #[trigger] plane_addrs(r, w, z, h - 1)[k]
                == region_addr(r, z, y, i);
        assert(plane_addrs(r, w, z, h)[k] == region_addr(r, z, y, i));
    }
}

/// Every byte of a region stands in the region's address list.
pub proof fn lemma_region_contains(r: Region, w: int, h: int, dep: int, z: int, y: int, i: int)
    requires
        0 <= z < dep,
        0 <= y < h,
        0 <= i < w,
    ensures
        exists|k: int|
            0 <= k < region_addrs(r, w, h, dep).len() && #[trigger] region_addrs(r, w, h, dep)[k]
                == region_addr(r, z, y, i),
    decreases dep,
{
    if z == dep - 1 {
        lemma_plane_contains(r, w, z, h, y, i);
        let k = choose|k: int|
            0 <= k < plane_addrs(r, w, z, h).len() && #[trigger] plane_addrs(r, w, z, h)[k]
                == region_addr(r, z, y, i);
        let off = region_addrs(r, w, h, dep - 1).len() as int;
        assert(region_addrs(r, w, h, dep)[off + k] == region_addr(r, z, y, i));
    } else {
        lemma_region_contains(r, w, h, dep - 1, z, y, i);
        let k = choose|k: int|
            0 <= k < region_addrs(r, w, h, dep - 1).len() && #[trigger] region_addrs(
                r,
                w,
                h,
                dep - 1,
            )[k] == region_addr(r, z, y, i);
        assert(region_addrs(r, w, h, dep)[k] == region_addr(r, z, y, i));
    }
}

/// Scattering to mapped addresses keeps the layout well formed.
pub proof fn lemma_scatter_layout(s: Seq<Span>, dsts: Seq<int>, vals: Seq<u8>)
    requires
        wf_entries(s),
        vals.len() == dsts.len(),
        forall|k: int| 0 <= k < dsts.len() ==> mapped(s, #[trigger] dsts[k]),
    ensures
        same_layout(s, scatter_s(s, dsts, vals)),
        wf_entries(scatter_s(s, dsts, vals)),
    decreases dsts.len(),
{
    if dsts.len() > 0 {
        assert(forall|k: int|
            0 <= k < dsts.drop_last().len() ==> mapped(s, #[trigger] dsts.drop_last()[k]));
        lemma_scatter_layout(s, dsts.drop_last(), vals.drop_last());
        let t = scatter_s(s, dsts.drop_last(), vals.drop_last());
        lemma_same_layout_mapped(s, t);
        assert(mapped(t, dsts.last()));
        lemma_write_byte_s(t, dsts.last(), vals.last());
    }
}

/// Address of byte `(z, y, 0)` of the region, when it fits the address space.
fn row_base(
    base: usize,
    x0: usize,
    y0: usize,
    z0: usize,
    pitch: usize,
    rheight: usize,
    z: usize,
    y: usize,
) -> (r: Option<usize>)
    ensures
        ({
            let v = region_addr(mk_region(base, x0, y0, z0, pitch, rheight), z as int, y as int, 0);
            match r {
                Option::Some(rb) => rb as int == v,
                Option::None => v > usize::MAX,
            }
        }),
{
    let ghost mz: int = z0 as int + z as int;
    let ghost prod: int = mz * (rheight as int);
    let ghost msum: int = prod + y0 as int + y as int;
    let ghost vterm: int = msum * (pitch as int);
    let ghost v: int = base as int + vterm + x0 as int;
    proof {
        assert(v == region_addr(
            mk_region(base, x0, y0, z0, pitch, rheight),
            z as int,
            y as int,
            0,
        ));
        assert(prod >= 0) by (nonlinear_arith)
            requires
                prod == mz * (rheight as int),
                mz >= 0,
                rheight as int >= 0,
        ;
    }
    if pitch == 0 {
        proof {
            assert(vterm == 0) by (nonlinear_arith)
                requires
                    vterm == msum * (pitch as int),
                    pitch as int == 0,
            ;
        }
        return base.checked_add(x0);
    }
    proof {
        assert(vterm >= msum) by (nonlinear_arith)
            requires
                vterm == msum * (pitch as int),
                pitch as int >= 1,
                msum >= 0,
        ;
    }
    let inner_opt: Option<usize> = if rheight == 0 {
        proof {
            assert(prod == 0) by (nonlinear_arith)
                requires
                    prod == mz * (rheight as int),
                    rheight as int == 0,
            ;
        }
        y0.checked_add(y)
    } else {
        proof {
            assert(prod >= mz) by (nonlinear_arith)
                requires
                    prod == mz * (rheight as int),
                    rheight as int >= 1,
                    mz >= 0,
            ;
        }
        match z0.checked_add(z) {
            Option::None => Option::None,
            Option::Some(t1) => match t1.checked_mul(rheight) {
                Option::None => Option::None,
                Option::Some(t2) => match y0.checked_add(y) {
                    Option::None => Option::None,
                    Option::Some(t3) => t2.checked_add(t3),
                },
            },
        }
    };
    let inner = match inner_opt {
        Option::Some(t) => t,
        Option::None => {
            return Option::None;
        },
    };
    let t4 = match inner.checked_mul(pitch) {
        Option::Some(t) => t,
        Option::None => {
            return Option::None;
        },
    };
    let t5 = match base.checked_add(t4) {
        Option::Some(t) => t,
        Option::None => {
            return Option::None;
        },
    };
    t5.checked_add(x0)
}

/// All addresses of a region of extent `w` bytes by `h` rows by `dep`
/// planes, in element order, when every one fits the address space.
fn build_region(
    base: usize,
    x0: usize,
    y0: usize,
    z0: usize,
    pitch: usize,
    rheight: usize,
    w: usize,
    h: usize,
    dep: usize,
) -> (r: Result<Vec<usize>, Error>)
    ensures
        ({
            let addrs = region_addrs(
                mk_region(base, x0, y0, z0, pitch, rheight),
                w as int,
                h as int,
                dep as int,
            );
            match r {
                Result::Ok(v) => addrs_match(v@, addrs),
                Result::Err(e) => e == Error::NotMapped && exists|k: int|
                    0 <= k < addrs.len() && #[trigger] addrs[k] > usize::MAX,
            }
        }),
{
    let ghost rg = mk_region(base, x0, y0, z0, pitch, rheight);
    if w == 0 || h == 0 || dep == 0 {
        proof {
            lemma_region_len(rg, w as int, h as int, dep as int);
            assert((dep as int) * (h as int) * (w as int) == 0) by (nonlinear_arith)
                requires
                    w == 0 || h == 0 || dep == 0,
            ;
        }
        return Result::Ok(Vec::new());
    }
    let mut v: Vec<usize> = Vec::new();
    let mut z: usize = 0;
    while z < dep
        invariant
            z <= dep,
            1 <= w,
            1 <= h,
            1 <= dep,
            addrs_match(
                v@,
                region_addrs(
                    mk_region(base, x0, y0, z0, pitch, rheight),
                    w as int,
                    h as int,
                    z as int,
                ),
            ),
        decreases dep - z,
    {
        let ghost rg = mk_region(base, x0, y0, z0, pitch, rheight);
        let mut y: usize = 0;
        while y < h
            invariant
                y <= h,
                z < dep,
                1 <= w,
                1 <= h,
                1 <= dep,
                rg == mk_region(base, x0, y0, z0, pitch, rheight),
                addrs_match(
                    v@,
                    region_addrs(rg, w as int, h as int, z as int) + plane_addrs(
                        rg,
                        w as int,
                        z as int,
                        y as int,
                    ),
                ),
            decreases h - y,
        {
            let rb = match row_base(base, x0, y0, z0, pitch, rheight, z, y) {
                Option::Some(rb) => rb,
                Option::None => {
                    proof {
                        lemma_region_contains(
                            rg,
                            w as int,
                            h as int,
                            dep as int,
                            z as int,
                            y as int,
                            0,
                        );
                    }
                    return Result::Err(Error::NotMapped);
                },
            };
            let wlast = match rb.checked_add(w - 1) {
                Option::Some(l) => l,
                Option::None => {
                    proof {
                        lemma_region_contains(
                            rg,
                            w as int,
                            h as int,
                            dep as int,
                            z as int,
                            y as int,
                            w as int - 1,
                        );
                    }
                    return Result::Err(Error::NotMapped);
                },
            };
            let mut i: usize = 0;
            while i < w
                invariant
                    i <= w,
                    y < h,
                    z < dep,
                    1 <= w,
                    rg == mk_region(base, x0, y0, z0, pitch, rheight),
                    rb as int == region_addr(rg, z as int, y as int, 0),
                    rb + (w - 1) <= usize::MAX,
                    addrs_match(
                        v@,
                        region_addrs(rg, w as int, h as int, z as int) + plane_addrs(
                            rg,
                            w as int,
                            z as int,
                            y as int,
                        ) + row_addrs(rg, z as int, y as int, i as int),
                    ),
                decreases w - i,
            {
                let ghost before = region_addrs(rg, w as int, h as int, z as int) + plane_addrs(
                    rg,
                    w as int,
                    z as int,
                    y as int,
                );
                v.push(rb + i);
                proof {
                    assert((before + row_addrs(rg, z as int, y as int, i as int)).push(
                        region_addr(rg, z as int, y as int, i as int),
                    ) =~= before + row_addrs(rg, z as int, y as int, i as int + 1));
                }
                i = i + 1;
            }
            proof {
                assert(region_addrs(rg, w as int, h as int, z as int) + plane_addrs(
                    rg,
                    w as int,
                    z as int,
                    y as int,
                ) + row_addrs(rg, z as int, y as int, w as int) =~= region_addrs(
                    rg,
                    w as int,
                    h as int,
                    z as int,
                ) + plane_addrs(rg, w as int, z as int, y as int + 1));
            }
            y = y + 1;
        }
        proof {
            assert(region_addrs(rg, w as int, h as int, z as int) + plane_addrs(
                rg,
                w as int,
                z as int,
                h as int,
            ) =~= region_addrs(rg, w as int, h as int, z as int + 1));
        }
        z = z + 1;
    }
    Result::Ok(v)
}

/// Whether every byte the descriptor touches is mapped right now; only
/// device-to-device descriptors are ever ok in the model.
pub fn check_desc(c: &Ctx, d: &MemcpyDesc) -> (r: bool)
    requires
        c.wf(),
    ensures
        r == desc_ok(c.table(), *d),
{
    if !(d.src_memory_type == MemKind::Device) || !(d.dst_memory_type == MemKind::Device) {
        return false;
    }
    let srcs = match build_region(
        d.src_device,
        d.src_x_in_bytes,
        d.src_y,
        d.src_z,
        d.src_pitch,
        d.src_height,
        d.width_in_bytes,
        d.height,
        d.depth,
    ) {
        Result::Ok(v) => v,
        Result::Err(_) => {
            proof {
                let k = choose|k: int|
                    0 <= k < src_addrs(*d).len() && #[trigger] src_addrs(*d)[k] > usize::MAX;
                if mapped(c.table(), src_addrs(*d)[k]) {
                    lemma_mapped_in_range(c.table(), src_addrs(*d)[k]);
                }
            }
            return false;
        },
    };
    let dsts = match build_region(
        d.dst_device,
        d.dst_x_in_bytes,
        d.dst_y,
        d.dst_z,
        d.dst_pitch,
        d.dst_height,
        d.width_in_bytes,
        d.height,
        d.depth,
    ) {
        Result::Ok(v) => v,
        Result::Err(_) => {
            proof {
                let k = choose|k: int|
                    0 <= k < dst_addrs(*d).len() && #[trigger] dst_addrs(*d)[k] > usize::MAX;
                if mapped(c.table(), dst_addrs(*d)[k]) {
                    lemma_mapped_in_range(c.table(), dst_addrs(*d)[k]);
                }
            }
            return false;
        },
    };
    let mut k: usize = 0;
    let n = srcs.len();
    while k < n
        invariant
            k <= n,
            n == srcs.len(),
            c.wf(),
            addrs_match(srcs@, src_addrs(*d)),
            forall|j: int| 0 <= j < k ==> mapped(c.table(), #[trigger] src_addrs(*d)[j]),
        decreases n - k,
    {
        if !c.is_mapped(srcs[k]) {
            return false;
        }
        k = k + 1;
    }
    let mut k: usize = 0;
    let n = dsts.len();
    while k < n
        invariant
            k <= n,
            n == dsts.len(),
            c.wf(),
            addrs_match(dsts@, dst_addrs(*d)),
            forall|j: int| 0 <= j < k ==> mapped(c.table(), #[trigger] dst_addrs(*d)[j]),
        decreases n - k,
    {
        if !c.is_mapped(dsts[k]) {
            return false;
        }
        k = k + 1;
    }
    true
}

/// Replay one device-to-device copy against the context: read every source
/// byte, then write them all to the destination addresses in element order.
pub fn apply_copy(c: &mut Ctx, d: &MemcpyDesc)
    requires
        old(c).wf(),
        desc_ok(old(c).table(), *d),
    ensures
        final(c).wf(),
        final(c).reserved() == old(c).reserved(),
        same_layout(old(c).table(), final(c).table()),
        final(c).table() == apply_desc(old(c).table(), *d),
{
    proof {
        lemma_region_len(src_region(*d), d.width_in_bytes as int, d.height as int, d.depth as int);
        lemma_region_len(dst_region(*d), d.width_in_bytes as int, d.height as int, d.depth as int);
    }
    let srcs = match build_region(
        d.src_device,
        d.src_x_in_bytes,
        d.src_y,
        d.src_z,
        d.src_pitch,
        d.src_height,
        d.width_in_bytes,
        d.height,
        d.depth,
    ) {
        Result::Ok(v) => v,
        Result::Err(_) => {
            proof {
                let k = choose|k: int|
                    0 <= k < src_addrs(*d).len() && #[trigger] src_addrs(*d)[k] > usize::MAX;
                lemma_mapped_in_range(old(c).table(), src_addrs(*d)[k]);
                assert(false);
            }
            return ;
        },
    };
    let dsts = match build_region(
        d.dst_device,
        d.dst_x_in_bytes,
        d.dst_y,
        d.dst_z,
        d.dst_pitch,
        d.dst_height,
        d.width_in_bytes,
        d.height,
        d.depth,
    ) {
        Result::Ok(v) => v,
        Result::Err(_) => {
            proof {
                let k = choose|k: int|
                    0 <= k < dst_addrs(*d).len() && #[trigger] dst_addrs(*d)[k] > usize::MAX;
                lemma_mapped_in_range(old(c).table(), dst_addrs(*d)[k]);
                assert(false);
            }
            return ;
        },
    };
    let mut vals: Vec<u8> = Vec::new();
    let n = srcs.len();
    let mut k: usize = 0;
    while k < n
        invariant
            k <= n,
            n == srcs.len(),
            c.wf(),
            *c == *old(c),
            desc_ok(old(c).table(), *d),
            addrs_match(srcs@, src_addrs(*d)),
            vals@.len() == k,
            forall|j: int|
                0 <= j < k ==> #[trigger] vals@[j] == val_at(old(c).table(), src_addrs(*d)[j]),
        decreases n - k,
    {
        proof {
            lemma_holder_props(c.table(), src_addrs(*d)[k as int]);
        }
        let b = c.read_byte(srcs[k]);
        vals.push(b);
        k = k + 1;
    }
    let ghost gvals = gather_s(old(c).table(), src_addrs(*d));
    proof {
        assert(vals@ =~= gvals);
        assert(dsts@.len() == srcs@.len());
    }
    let n = dsts.len();
    let mut k: usize = 0;
    while k < n
        invariant
            k <= n,
            n == dsts.len(),
            c.wf(),
            c.reserved() == old(c).reserved(),
            desc_ok(old(c).table(), *d),
            gvals == gather_s(old(c).table(), src_addrs(*d)),
            gvals.len() == n,
            vals@ == gvals,
            addrs_match(dsts@, dst_addrs(*d)),
            same_layout(old(c).table(), c.table()),
            c.table() == scatter_s(old(c).table(), dst_addrs(*d).take(k as int), gvals.take(k as int)),
        decreases n - k,
    {
        proof {
            lemma_same_layout_mapped(old(c).table(), c.table());
            assert(mapped(c.table(), dst_addrs(*d)[k as int]));
            lemma_holder_props(c.table(), dst_addrs(*d)[k as int]);
        }
        let ghost pre = c.table();
        c.write_byte(dsts[k], vals[k]);
        proof {
            let full = dst_addrs(*d);
            assert(full.take(k as int + 1).drop_last() =~= full.take(k as int));
            assert(gvals.take(k as int + 1).drop_last() =~= gvals.take(k as int));
            assert(full.take(k as int + 1).last() == full[k as int]);
            assert(gvals.take(k as int + 1).last() == gvals[k as int]);
            assert(c.table() == scatter_s(
                old(c).table(),
                full.take(k as int + 1),
                gvals.take(k as int + 1),
            ));
        }
        k = k + 1;
    }
    proof {
        assert(dst_addrs(*d).take(n as int) =~= dst_addrs(*d));
        assert(gvals.take(n as int) =~= gvals);
    }
}

/// Index form of a row's address list.
pub proof fn lemma_row_index(r: Region, z: int, y: int, w: int, k: int)
    requires
        0 <= k < w,
    ensures
        row_addrs(r, z, y, w).len() == w,
        row_addrs(r, z, y, w)[k] == region_addr(r, z, y, k),
    decreases w,
{
    lemma_row_len(r, z, y, w);
    if k < w - 1 {
        lemma_row_index(r, z, y, w - 1, k);
    }
}

/// A one-row, one-plane region is the run of consecutive addresses from its
/// first byte.
pub proof fn lemma_flat_region(r: Region, w: int)
    requires
        w >= 0,
    ensures
        region_addrs(r, w, 1, 1) =~= Seq::new(w as nat, |i: int| region_addr(r, 0, 0, i)),
{
    assert(region_addrs(r, w, 1, 0) =~= Seq::<int>::empty());
    assert(plane_addrs(r, w, 0, 0) =~= Seq::<int>::empty());
    assert(region_addrs(r, w, 1, 1) =~= row_addrs(r, 0, 0, w));
    lemma_row_len(r, 0, 0, w);
    assert forall|k: int| 0 <= k < w implies row_addrs(r, 0, 0, w)[k] == region_addr(
        r,
        0,
        0,
        k,
    ) by {
        lemma_row_index(r, 0, 0, w, k);
    }
}

/// Law corollary: a flat device-to-device copy makes the destination range
/// read back the source's bytes and leaves every other byte alone.
pub proof fn lemma_d2d_copy(s: Seq<Span>, dst: DevSlice, src: DevSlice)
    requires
        wf_entries(s),
        dst.len == src.len,
        range_mapped(s, src.addr as int, src.len as int),
        range_mapped(s, dst.addr as int, dst.len as int),
    ensures
        wf_entries(apply_desc(s, d2d_desc(dst, src))),
        same_layout(s, apply_desc(s, d2d_desc(dst, src))),
        forall|i: int|
            0 <= i < dst.len ==> #[trigger] byte_at(apply_desc(s, d2d_desc(dst, src)), dst.addr + i)
                == byte_at(s, src.addr + i),
        forall|x: int|
            !(dst.addr <= x < dst.addr + dst.len) ==> #[trigger] byte_at(
                apply_desc(s, d2d_desc(dst, src)),
                x,
            ) == byte_at(s, x),
{
    let d = d2d_desc(dst, src);
    let w = dst.len as int;
    let sr = src_region(d);
    let dr = dst_region(d);
    lemma_flat_region(sr, w);
    lemma_flat_region(dr, w);
    assert forall|i: int| true implies #[trigger] region_addr(sr, 0, 0, i) == src.addr + i by {
        assert(((sr.z0 + 0) * sr.rheight + (sr.y0 + 0)) * sr.pitch == 0) by (nonlinear_arith)
            requires
                sr.pitch == 0,
        ;
    }
    assert forall|i: int| true implies #[trigger] region_addr(dr, 0, 0, i) == dst.addr + i by {
        assert(((dr.z0 + 0) * dr.rheight + (dr.y0 + 0)) * dr.pitch == 0) by (nonlinear_arith)
            requires
                dr.pitch == 0,
        ;
    }
    assert(src_addrs(d) =~= Seq::new(w as nat, |i: int| src.addr + i));
    assert(dst_addrs(d) =~= Seq::new(w as nat, |i: int| dst.addr + i));
    let vals = gather_s(s, src_addrs(d));
    assert(apply_desc(s, d) == write_range_s(s, dst.addr as int, vals));
    lemma_write_range(s, dst.addr as int, vals);
    assert forall|i: int|
        0 <= i < dst.len implies #[trigger] byte_at(apply_desc(s, d), dst.addr + i) == byte_at(
        s,
        src.addr + i,
    ) by {
        assert(vals[i] == val_at(s, src.addr + i));
        assert(mapped(s, src.addr + i));
    }
}

impl MemcpyDesc {
    /// Descriptor of a flat device-to-device copy covering the whole of both
    /// slices, which must be of equal length.
    pub fn d2d(dst: &DevSlice, src: &DevSlice) -> (r: MemcpyDesc)
        requires
            dst.len == src.len,
        ensures
            r == d2d_desc(*dst, *src),
    {
        MemcpyDesc {
            src_x_in_bytes: 0,
            src_y: 0,
            src_z: 0,
            src_memory_type: MemKind::Device,
            src_device: src.addr,
            src_pitch: 0,
            src_height: 0,
            dst_x_in_bytes: 0,
            dst_y: 0,
            dst_z: 0,
            dst_memory_type: MemKind::Device,
            dst_device: dst.addr,
            dst_pitch: 0,
            dst_height: 0,
            width_in_bytes: dst.len,
            height: 1,
            depth: 1,
        }
    }
}

/// Descriptor of a flat device-to-device copy of the whole of both slices.
pub open spec fn d2d_desc(dst: DevSlice, src: DevSlice) -> MemcpyDesc {
    MemcpyDesc {
        src_x_in_bytes: 0,
        src_y: 0,
        src_z: 0,
        src_memory_type: MemKind::Device,
        src_device: src.addr,
        src_pitch: 0,
        src_height: 0,
        dst_x_in_bytes: 0,
        dst_y: 0,
        dst_z: 0,
        dst_memory_type: MemKind::Device,
        dst_device: dst.addr,
        dst_pitch: 0,
        dst_height: 0,
        width_in_bytes: dst.len,
        height: 1,
        depth: 1,
    }
}

} // verus!
