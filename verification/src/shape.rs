use vstd::prelude::*;

use crate::error::Error;

verus! {

/// Fixed-width element kind of a tensor.
#[derive(Clone, Copy, PartialEq, Eq, Structural, Debug)]
pub enum DType {
    F32,
    F16,
    U32,
    I32,
    U8,
}

impl DType {
    /// Bytes per element.
    pub open spec fn spec_nbytes(self) -> int {
        match self {
            DType::F32 => 4,
            DType::F16 => 2,
            DType::U32 => 4,
            DType::I32 => 4,
            DType::U8 => 1,
        }
    }

    /// Bytes per element.
    pub fn nbytes(&self) -> (r: usize)
        ensures
            r == self.spec_nbytes(),
    {
        match self {
            DType::F32 => 4,
            DType::F16 => 2,
            DType::U32 => 4,
            DType::I32 => 4,
            DType::U8 => 1,
        }
    }
}

/// A dimension: a constant, or a named shape variable standing for an
/// unknown value until it is substituted.
#[derive(Debug)]
pub enum Dim {
    Const(usize),
    Var(String),
}

/// Mathematical image of a dimension.
#[verifier::ext_equal]
pub ghost enum DimImg {
    Const(int),
    Var(Seq<char>),
}

impl View for Dim {
    type V = DimImg;

    open spec fn view(&self) -> DimImg {
        match self {
            Dim::Const(v) => DimImg::Const(*v as int),
            Dim::Var(n) => DimImg::Var(n@),
        }
    }
}

/// Value bound to a variable name, if the environment binds it.
pub open spec fn lookup_env(env: Seq<(Seq<char>, int)>, name: Seq<char>) -> Option<int>
    decreases env.len(),
{
    if env.len() == 0 {
        Option::None
    } else if env[0].0 == name {
        Option::Some(env[0].1)
    } else {
        lookup_env(env.drop_first(), name)
    }
}

/// A scan computes `lookup_env`.
proof fn lemma_lookup_env_at(env: Seq<(Seq<char>, int)>, name: Seq<char>, j: int)
    requires
        0 <= j < env.len(),
        forall|k: int| 0 <= k < j ==> (#[trigger] env[k]).0 != name,
        env[j].0 == name,
    ensures
        lookup_env(env, name) == Option::Some(env[j].1),
    decreases env.len(),
{
    if j > 0 {
        assert forall|k: int| 0 <= k < j - 1 implies (#[trigger] env.drop_first()[k]).0 != name by {
            assert(env.drop_first()[k] == env[k + 1]);
        }
        lemma_lookup_env_at(env.drop_first(), name, j - 1);
    }
}

/// A scan that saw no binding computes `lookup_env`.
proof fn lemma_lookup_env_none(env: Seq<(Seq<char>, int)>, name: Seq<char>)
    requires
        forall|k: int| 0 <= k < env.len() ==> (#[trigger] env[k]).0 != name,
    ensures
        lookup_env(env, name) is None,
    decreases env.len(),
{
    if env.len() > 0 {
        assert forall|k: int| 0 <= k < env.drop_first().len() implies (
        #[trigger] env.drop_first()[k]).0 != name by {
            assert(env.drop_first()[k] == env[k + 1]);
        }
        lemma_lookup_env_none(env.drop_first(), name);
    }
}

/// Substitution of one dimension: a bound variable becomes its constant, an
/// unbound one stays symbolic, a constant stays itself.
pub open spec fn spec_substitute(d: DimImg, env: Seq<(Seq<char>, int)>) -> DimImg {
    match d {
        DimImg::Const(v) => DimImg::Const(v),
        DimImg::Var(n) => match lookup_env(env, n) {
            Option::Some(v) => DimImg::Const(v),
            Option::None => DimImg::Var(n),
        },
    }
}

/// An environment of shape-variable bindings.
pub struct ShapeEnv {
    pairs: Vec<(String, usize)>,
}

impl ShapeEnv {
    /// The bindings, in insertion order; an earlier binding shadows a later
    /// one of the same name.
    pub closed spec fn bindings(self) -> Seq<(Seq<char>, int)> {
        Seq::new(self.pairs@.len(), |i: int| (self.pairs@[i].0@, self.pairs@[i].1 as int))
    }

    /// An empty environment.
    pub fn new() -> (r: ShapeEnv)
        ensures
            r.bindings() =~= Seq::<(Seq<char>, int)>::empty(),
    {
        ShapeEnv { pairs: Vec::new() }
    }

    /// Add a binding.
    pub fn push(&mut self, name: &str, v: usize)
        ensures
            final(self).bindings() =~= old(self).bindings().push((name@, v as int)),
    {
        let owned = String::from_str(name);
        self.pairs.push((owned, v));
        proof {
            assert(final(self).bindings() =~= old(self).bindings().push((name@, v as int)));
        }
    }
}

impl Dim {
    /// A named shape variable.
    pub fn var(name: &str) -> (r: Dim)
        ensures
            r@ == DimImg::Var(name@),
    {
        Dim::Var(String::from_str(name))
    }

    /// Substitute this dimension under the environment.
    pub fn substitute(&self, env: &ShapeEnv) -> (r: Dim)
        ensures
            r@ == spec_substitute(self@, env.bindings()),
    {
        match self {
            Dim::Const(v) => Dim::Const(*v),
            Dim::Var(n) => {
                let m = env.pairs.len();
                let mut j: usize = 0;
                while j < m
                    invariant
                        j <= m,
                        m == env.pairs@.len(),
                        self@ == DimImg::Var(n@),
                        forall|k: int| 0 <= k < j ==> (#[trigger] env.bindings()[k]).0 != n@,
                    decreases m - j,
                {
                    if env.pairs[j].0.eq(n) {
                        proof {
                            lemma_lookup_env_at(env.bindings(), n@, j as int);
                        }
                        return Dim::Const(env.pairs[j].1);
                    }
                    j = j + 1;
                }
                proof {
                    lemma_lookup_env_none(env.bindings(), n@);
                }
                Dim::Var(n.clone())
            },
        }
    }
}

/// Element kind and symbolic shape of a tensor.
pub struct TensorMeta {
    pub dt: DType,
    pub shape: Vec<Dim>,
}

/// Images of a dimension list.
pub open spec fn dims_view(ds: Seq<Dim>) -> Seq<DimImg> {
    Seq::new(ds.len(), |i: int| ds[i]@)
}

/// Every dimension substituted under the environment.
pub open spec fn subst_all(ds: Seq<DimImg>, env: Seq<(Seq<char>, int)>) -> Seq<DimImg> {
    Seq::new(ds.len(), |i: int| spec_substitute(ds[i], env))
}

/// The dimensions are all constant.
pub open spec fn all_const(ds: Seq<DimImg>) -> bool {
    forall|i: int| 0 <= i < ds.len() ==> (#[trigger] ds[i]) is Const
}

/// The dimensions match the given concrete shape, entry for entry.
pub open spec fn dims_match(ds: Seq<DimImg>, sh: Seq<int>) -> bool {
    &&& ds.len() == sh.len()
    &&& forall|i: int| 0 <= i < ds.len() ==> (#[trigger] ds[i]) == DimImg::Const(sh[i])
}

/// Number of elements of a concrete shape: the product of its dimensions;
/// a symbolic dimension counts as zero.
pub open spec fn elem_count(ds: Seq<DimImg>) -> int
    decreases ds.len(),
{
    if ds.len() == 0 {
        1
    } else {
        elem_count(ds.drop_last()) * (match ds.last() {
            DimImg::Const(v) => v,
            DimImg::Var(_) => 0,
        })
    }
}

/// A shape with a zero dimension has no elements.
proof fn lemma_elem_count_zero(ds: Seq<DimImg>, j: int)
    requires
        0 <= j < ds.len(),
        ds[j] == DimImg::Const(0int),
    ensures
        elem_count(ds) == 0,
    decreases ds.len(),
{
    if j == ds.len() - 1 {
        assert(elem_count(ds.drop_last()) * 0 == 0) by (nonlinear_arith);
    } else {
        lemma_elem_count_zero(ds.drop_last(), j);
        let v = match ds.last() {
            DimImg::Const(v) => v,
            DimImg::Var(_) => 0int,
        };
        assert(0int * v == 0) by (nonlinear_arith);
    }
}

/// With every dimension a positive constant, the element count of a prefix
/// never exceeds the whole.
proof fn lemma_elem_count_mono(ds: Seq<DimImg>, i: int)
    requires
        0 <= i <= ds.len(),
        forall|k: int|
            0 <= k < ds.len() ==> match #[trigger] ds[k] {
                DimImg::Const(v) => v >= 1,
                DimImg::Var(_) => false,
            },
    ensures
        1 <= elem_count(ds.take(i)) <= elem_count(ds),
    decreases ds.len() - i,
{
    if i == ds.len() {
        assert(ds.take(i) =~= ds);
        lemma_elem_count_pos(ds);
    } else {
        lemma_elem_count_mono(ds, i + 1);
        let v = match ds.take(i + 1).last() {
            DimImg::Const(v) => v,
            DimImg::Var(_) => 0int,
        };
        assert(ds.take(i + 1).last() == ds[i]);
        assert(ds.take(i + 1).drop_last() =~= ds.take(i));
        assert(elem_count(ds.take(i + 1)) == elem_count(ds.take(i)) * v);
        assert forall|k: int| 0 <= k < ds.take(i).len() implies match #[trigger] ds.take(i)[k] {
            DimImg::Const(w) => w >= 1,
            DimImg::Var(_) => false,
        } by {
            assert(ds.take(i)[k] == ds[k]);
        }
        lemma_elem_count_pos(ds.take(i));
        assert(elem_count(ds.take(i)) * v >= elem_count(ds.take(i))) by (nonlinear_arith)
            requires
                v >= 1,
                elem_count(ds.take(i)) >= 1,
        ;
    }
}

/// With every dimension a positive constant the element count is positive.
proof fn lemma_elem_count_pos(ds: Seq<DimImg>)
    requires
        forall|k: int|
            0 <= k < ds.len() ==> match #[trigger] ds[k] {
                DimImg::Const(v) => v >= 1,
                DimImg::Var(_) => false,
            },
    ensures
        elem_count(ds) >= 1,
    decreases ds.len(),
{
    if ds.len() > 0 {
        assert forall|k: int|
            0 <= k < ds.drop_last().len() implies match #[trigger] ds.drop_last()[k] {
            DimImg::Const(v) => v >= 1,
            DimImg::Var(_) => false,
        } by {
            assert(ds.drop_last()[k] == ds[k]);
        }
        lemma_elem_count_pos(ds.drop_last());
        let v = match ds.last() {
            DimImg::Const(v) => v,
            DimImg::Var(_) => 0int,
        };
        assert(elem_count(ds.drop_last()) * v >= 1) by (nonlinear_arith)
            requires
                elem_count(ds.drop_last()) >= 1,
                v >= 1,
        ;
    }
}

impl TensorMeta {
    /// Meta from an element kind and a symbolic shape.
    pub fn new(dt: DType, shape: Vec<Dim>) -> (r: TensorMeta)
        ensures
            r.dt == dt,
            dims_view(r.shape@) == dims_view(shape@),
    {
        TensorMeta { dt, shape }
    }
}

/// One entry of the external tensor container, already resolved by name:
/// its element kind, concrete shape, and host-mapped bytes.
pub struct ContainerEntry {
    pub dt: DType,
    pub shape: Vec<usize>,
    pub data: Vec<u8>,
}

/// The storage a fixed edge carries: a weight tensor's name and host bytes,
/// or the byte size of an activation to be placed later.
#[derive(Debug)]
pub enum TensorData {
    Weight(String, Vec<u8>),
    Normal(usize),
}

/// The concrete values of a shape; symbolic dimensions count as zero.
pub open spec fn shape_values(sh: Seq<usize>) -> Seq<int> {
    Seq::new(sh.len(), |i: int| sh[i] as int)
}

/// Fix one edge under the environment: substitute its shape, and either
/// check it against the container entry it names (a weight edge) or compute
/// its byte size (an activation edge).
pub fn fix_n(
    name: &String,
    meta: &TensorMeta,
    env: &ShapeEnv,
    entry: Option<&ContainerEntry>,
) -> (r: Result<TensorData, Error>)
    requires
        entry is None ==> all_const(subst_all(dims_view(meta.shape@), env.bindings())),
        entry is None ==> elem_count(subst_all(dims_view(meta.shape@), env.bindings()))
            * meta.dt.spec_nbytes() <= usize::MAX,
    ensures
        ({
            let subst = subst_all(dims_view(meta.shape@), env.bindings());
            match r {
                Result::Ok(TensorData::Weight(n2, data)) => {
                    &&& entry is Some
                    &&& entry->0.dt == meta.dt
                    &&& dims_match(subst, shape_values(entry->0.shape@))
                    &&& n2@ == name@
                    &&& data@ == entry->0.data@
                },
                Result::Ok(TensorData::Normal(sz)) => {
                    &&& entry is None
                    &&& sz == elem_count(subst) * meta.dt.spec_nbytes()
                },
                Result::Err(e) => match e {
                    Error::DTypeMismatch(n2) => {
                        &&& entry is Some
                        &&& entry->0.dt != meta.dt
                        &&& n2@ == name@
                    },
                    Error::ShapeMismatch(n2, expected, actual) => {
                        &&& entry is Some
                        &&& entry->0.dt == meta.dt
                        &&& !dims_match(subst, shape_values(entry->0.shape@))
                        &&& n2@ == name@
                        &&& actual@ == entry->0.shape@
                        &&& expected@.len() == subst.len()
                        &&& forall|i: int|
                            0 <= i < subst.len() ==> #[trigger] expected@[i] as int == (
                            match subst[i] {
                                DimImg::Const(v) => v,
                                DimImg::Var(_) => 0int,
                            })
                    },
                    _ => false,
                },
            }
        }),
{
    let ghost subst = subst_all(dims_view(meta.shape@), env.bindings());
    let n = meta.shape.len();
    let mut fixed: Vec<Dim> = Vec::new();
    let mut i: usize = 0;
    while i < n
        invariant
            i <= n,
            n == meta.shape@.len(),
            subst == subst_all(dims_view(meta.shape@), env.bindings()),
            fixed@.len() == i,
            forall|k: int| 0 <= k < i ==> (#[trigger] fixed@[k])@ == subst[k],
        decreases n - i,
    {
        let d = meta.shape[i].substitute(env);
        fixed.push(d);
        i = i + 1;
    }
    match entry {
        Option::Some(e) => {
            if !(e.dt == meta.dt) {
                return Result::Err(Error::DTypeMismatch(name.clone()));
            }
            let m = fixed.len();
            let mut matches_shape = e.shape.len() == m;
            let mut i: usize = 0;
            while i < m
                invariant
                    i <= m,
                    m == fixed@.len(),
                    m == subst.len(),
                    forall|k: int| 0 <= k < m ==> (#[trigger] fixed@[k])@ == subst[k],
                    matches_shape ==> e.shape@.len() == m,
                    matches_shape ==> forall|k: int|
                        0 <= k < i ==> #[trigger] subst[k] == DimImg::Const(e.shape@[k] as int),
                    !matches_shape ==> !dims_match(subst, shape_values(e.shape@)),
                decreases m - i,
            {
                if matches_shape {
                    let ok = match &fixed[i] {
                        Dim::Const(v) => *v == e.shape[i],
                        Dim::Var(_) => false,
                    };
                    if !ok {
                        proof {
                            assert(subst[i as int] != DimImg::Const(
                                shape_values(e.shape@)[i as int],
                            ));
                        }
                        matches_shape = false;
                    }
                }
                i = i + 1;
            }
            if !matches_shape {
                let mut expected: Vec<usize> = Vec::new();
                let mut i: usize = 0;
                while i < m
                    invariant
                        i <= m,
                        m == fixed@.len(),
                        m == subst.len(),
                        forall|k: int| 0 <= k < m ==> (#[trigger] fixed@[k])@ == subst[k],
                        expected@.len() == i,
                        forall|k: int|
                            0 <= k < i ==> #[trigger] expected@[k] as int == (match subst[k] {
                                DimImg::Const(v) => v,
                                DimImg::Var(_) => 0int,
                            }),
                    decreases m - i,
                {
                    let v = match &fixed[i] {
                        Dim::Const(v) => *v,
                        Dim::Var(_) => 0,
                    };
                    expected.push(v);
                    i = i + 1;
                }
                let mut actual: Vec<usize> = Vec::new();
                let ml = e.shape.len();
                let mut i: usize = 0;
                while i < ml
                    invariant
                        i <= ml,
                        ml == e.shape@.len(),
                        actual@ =~= e.shape@.take(i as int),
                    decreases ml - i,
                {
                    actual.push(e.shape[i]);
                    proof {
                        assert(e.shape@.take(i as int).push(e.shape@[i as int]) =~= e.shape@.take(
                            i as int + 1,
                        ));
                    }
                    i = i + 1;
                }
                proof {
                    assert(actual@ =~= e.shape@);
                }
                return Result::Err(Error::ShapeMismatch(name.clone(), expected, actual));
            }
            let mut data: Vec<u8> = Vec::new();
            let dl = e.data.len();
            let mut i: usize = 0;
            while i < dl
                invariant
                    i <= dl,
                    dl == e.data@.len(),
                    data@ =~= e.data@.take(i as int),
                decreases dl - i,
            {
                data.push(e.data[i]);
                proof {
                    assert(e.data@.take(i as int).push(e.data@[i as int]) =~= e.data@.take(
                        i as int + 1,
                    ));
                }
                i = i + 1;
            }
            proof {
                assert(data@ =~= e.data@);
            }
            Result::Ok(TensorData::Weight(name.clone(), data))
        },
        Option::None => {
            let m = fixed.len();
            let mut zero_at: Option<usize> = Option::None;
            let mut i: usize = 0;
            while i < m
                invariant
                    i <= m,
                    m == fixed@.len(),
                    m == subst.len(),
                    all_const(subst),
                    forall|k: int| 0 <= k < m ==> (#[trigger] fixed@[k])@ == subst[k],
                    match zero_at {
                        Option::Some(j) => j < m && subst[j as int] == DimImg::Const(0int),
                        Option::None => forall|k: int|
                            0 <= k < i ==> #[trigger] subst[k] != DimImg::Const(0int),
                    },
                decreases m - i,
            {
                if zero_at.is_none() {
                    let z = match &fixed[i] {
                        Dim::Const(v) => *v == 0,
                        Dim::Var(_) => false,
                    };
                    if z {
                        zero_at = Option::Some(i);
                    }
                }
                i = i + 1;
            }
            match zero_at {
                Option::Some(j) => {
                    proof {
                        lemma_elem_count_zero(subst, j as int);
                    }
                    Result::Ok(TensorData::Normal(0))
                },
                Option::None => {
                    proof {
                        assert forall|k: int|
                            0 <= k < subst.len() implies match #[trigger] subst[k] {
                            DimImg::Const(v) => v >= 1,
                            DimImg::Var(_) => false,
                        } by {
                            assert(fixed@[k]@ == subst[k]);
                            match fixed@[k] {
                                Dim::Const(v) => {
                                    assert(subst[k] == DimImg::Const(v as int));
                                    assert(subst[k] != DimImg::Const(0int));
                                },
                                Dim::Var(_) => {
                                    assert(subst[k] is Var);
                                },
                            }
                        }
                    }
                    let mut prod: usize = 1;
                    let mut i: usize = 0;
                    while i < m
                        invariant
                            i <= m,
                            m == fixed@.len(),
                            m == subst.len(),
                            forall|k: int| 0 <= k < m ==> (#[trigger] fixed@[k])@ == subst[k],
                            forall|k: int|
                                0 <= k < subst.len() ==> match #[trigger] subst[k] {
                                    DimImg::Const(v) => v >= 1,
                                    DimImg::Var(_) => false,
                                },
                            elem_count(subst) * meta.dt.spec_nbytes() <= usize::MAX,
                            meta.dt.spec_nbytes() >= 1,
                            prod == elem_count(subst.take(i as int)),
                        decreases m - i,
                    {
                        let v = match &fixed[i] {
                            Dim::Const(v) => *v,
                            Dim::Var(_) => 0,
                        };
                        proof {
                            lemma_elem_count_mono(subst, i as int + 1);
                            assert(subst.take(i as int + 1).drop_last() =~= subst.take(i as int));
                            assert(subst.take(i as int + 1).last() == subst[i as int]);
                            assert(elem_count(subst.take(i as int + 1)) == prod * v);
                            assert(prod * v >= 0) by (nonlinear_arith)
                                requires
                                    prod >= 0,
                                    v >= 0,
                            ;
                            assert(prod * v * meta.dt.spec_nbytes() <= usize::MAX) by (
                            nonlinear_arith)
                                requires
                                    elem_count(subst.take(i as int + 1)) == prod * v,
                                    elem_count(subst.take(i as int + 1)) <= elem_count(subst),
                                    elem_count(subst) * meta.dt.spec_nbytes() <= usize::MAX,
                                    meta.dt.spec_nbytes() >= 1,
                                    prod * v >= 0,
                            ;
                            assert(prod * v <= usize::MAX) by (nonlinear_arith)
                                requires
                                    prod * v * meta.dt.spec_nbytes() <= usize::MAX,
                                    meta.dt.spec_nbytes() >= 1,
                                    prod * v >= 0,
                            ;
                        }
                        prod = prod * v;
                        i = i + 1;
                    }
                    proof {
                        assert(subst.take(m as int) =~= subst);
                    }
                    let nb = meta.dt.nbytes();
                    proof {
                        assert(prod * nb <= usize::MAX);
                    }
                    Result::Ok(TensorData::Normal(prod * nb))
                },
            }
        },
    }
}

/// A value wrapped for rendering by the front-end's formatter; the library
/// itself attaches no textual form to it.
#[derive(Clone, Copy)]
pub struct DataFmt<T>(pub T);

} // verus!
