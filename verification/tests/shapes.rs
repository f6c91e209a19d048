use devgraph::error::Error;
use devgraph::shape::{fix_n, ContainerEntry, DType, Dim, ShapeEnv, TensorData, TensorMeta};

#[test]
fn substitute_bound_variable() {
    let mut env = ShapeEnv::new();
    env.push("n", 5);
    let d = Dim::var("n").substitute(&env);
    assert!(matches!(d, Dim::Const(5)));
}

#[test]
fn substitute_unbound_variable_stays_symbolic() {
    let env = ShapeEnv::new();
    let d = Dim::var("n").substitute(&env);
    match d {
        Dim::Var(name) => assert_eq!(name, "n"),
        Dim::Const(_) => panic!(),
    }
}

#[test]
fn substitute_constant_is_identity() {
    let mut env = ShapeEnv::new();
    env.push("n", 5);
    let d = Dim::Const(7).substitute(&env);
    assert!(matches!(d, Dim::Const(7)));
}

#[test]
fn fix_n_weight_edge_checks_and_carries_data() {
    let mut env = ShapeEnv::new();
    env.push("n", 5);
    let meta = TensorMeta::new(DType::F32, vec![Dim::Const(2), Dim::var("n")]);
    let entry = ContainerEntry {
        dt: DType::F32,
        shape: vec![2, 5],
        data: vec![1, 2, 3, 4],
    };
    let name = String::from("token_embd.weight");
    match fix_n(&name, &meta, &env, Some(&entry)).unwrap() {
        TensorData::Weight(n, data) => {
            assert_eq!(n, "token_embd.weight");
            assert_eq!(data, vec![1, 2, 3, 4]);
        },
        TensorData::Normal(_) => panic!(),
    }
}

#[test]
fn fix_n_reports_dtype_mismatch() {
    let env = ShapeEnv::new();
    let meta = TensorMeta::new(DType::F32, vec![Dim::Const(2)]);
    let entry = ContainerEntry { dt: DType::U32, shape: vec![2], data: vec![0; 8] };
    let name = String::from("blk.0.attn_norm.weight");
    match fix_n(&name, &meta, &env, Some(&entry)) {
        Err(Error::DTypeMismatch(n)) => assert_eq!(n, "blk.0.attn_norm.weight"),
        _ => panic!(),
    }
}

#[test]
fn fix_n_reports_shape_mismatch_with_both_shapes() {
    let mut env = ShapeEnv::new();
    env.push("n", 5);
    let meta = TensorMeta::new(DType::F32, vec![Dim::Const(2), Dim::var("n")]);
    let entry = ContainerEntry { dt: DType::F32, shape: vec![2, 6], data: vec![0; 48] };
    let name = String::from("blk.0.attn_qkv.weight");
    match fix_n(&name, &meta, &env, Some(&entry)) {
        Err(Error::ShapeMismatch(n, expected, actual)) => {
            assert_eq!(n, "blk.0.attn_qkv.weight");
            assert_eq!(expected, vec![2, 5]);
            assert_eq!(actual, vec![2, 6]);
        },
        _ => panic!(),
    }
}

#[test]
fn fix_n_activation_edge_computes_byte_size() {
    let mut env = ShapeEnv::new();
    env.push("n", 5);
    let meta = TensorMeta::new(DType::F32, vec![Dim::Const(3), Dim::var("n")]);
    let name = String::from("x");
    match fix_n(&name, &meta, &env, None).unwrap() {
        TensorData::Normal(sz) => assert_eq!(sz, 60),
        TensorData::Weight(..) => panic!(),
    }
}

#[test]
fn fix_n_activation_with_zero_dimension_is_empty() {
    let mut env = ShapeEnv::new();
    env.push("n", 0);
    let meta = TensorMeta::new(DType::U8, vec![Dim::var("n"), Dim::Const(9)]);
    let name = String::from("x");
    match fix_n(&name, &meta, &env, None).unwrap() {
        TensorData::Normal(sz) => assert_eq!(sz, 0),
        TensorData::Weight(..) => panic!(),
    }
}
