use devgraph::error::Error;
use devgraph::symbol::{Module, Symbol};

#[test]
fn test_search_symbols() {
    let code = r#"
extern "C" __global__ void kernel0() { printf("Hello World from GPU!\n"); }
extern "C" __device__ long kernel1() { printf("Hello World from GPU!\n"); }
extern "C" __global__ void kernel2() { printf("Hello World from GPU!\n"); }
    "#;
    assert_eq!(
        Symbol::search(code),
        vec![
            Symbol::Global("kernel0"),
            Symbol::Device("kernel1"),
            Symbol::Global("kernel2"),
        ]
    );
}

#[test]
fn search_empty_source_yields_nothing() {
    assert_eq!(Symbol::search(""), Vec::<Symbol>::new());
    assert_eq!(Symbol::search("__global__ void lonely() {}"), Vec::<Symbol>::new());
}

#[test]
fn search_skips_declarations_without_c_linkage() {
    let code = r#"
extern __global__ void plain0() {}
extern "C" __global__ void kept() {}
    "#;
    assert_eq!(Symbol::search(code), vec![Symbol::Global("kept")]);
}

#[test]
fn search_requires_void_for_global() {
    let code = r#"extern "C" __global__ long not_entry() {}"#;
    assert_eq!(Symbol::search(code), Vec::<Symbol>::new());
}

#[test]
fn search_classifies_device_without_void() {
    let code = r#"extern "C" __device__ long helper(int x) { return x; }"#;
    assert_eq!(Symbol::search(code), vec![Symbol::Device("helper")]);
}

#[test]
fn search_ignores_head_without_argument_list() {
    let code = r#"extern "C" __global__ void no_parens"#;
    assert_eq!(Symbol::search(code), Vec::<Symbol>::new());
}

#[test]
fn module_resolves_discovered_globals() {
    let code = r#"
extern "C" __global__ void rms_norm(float* x) {}
extern "C" __global__ void rope(float* x) {}
    "#;
    let mut names = Vec::new();
    for sym in Symbol::search(code) {
        if let Symbol::Global(n) = sym {
            names.push(n.to_string());
        }
    }
    let module = Module::load(names);
    assert_eq!(module.get_function("rms_norm"), Ok(0));
    assert_eq!(module.get_function("rope"), Ok(1));
    assert_eq!(
        module.get_function("missing"),
        Err(Error::SymbolNotFound("missing".to_string()))
    );
}
