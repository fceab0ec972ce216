//! Tests for the code transform: offset recording, hook delivery, and the
//! exact shift after instrumentation.

use walrus::{FunctionBuilder, FunctionId, Module, ModuleConfig, RawCustomSection, ValType};

fn one_const_module(config: &ModuleConfig) -> Vec<u8> {
    let mut module = Module::with_config(config.clone());
    let ty = module.types.add(vec![], vec![ValType::I32]);
    let mut builder = FunctionBuilder::new();
    let c = builder.i32_const(1337);
    let f_id = builder.finish(ty, vec![], vec![c], &mut module);
    module.exports.add("f", f_id);
    module.emit_wasm()
}

#[test]
fn smoke_test_code_transform() {
    // Insert a discarded zero constant at the start of the function and check
    // that the transform maps every original instruction three bytes down:
    // the size of the inserted code.
    let mut config = ModuleConfig::new();
    config.generate_producers_section(false);
    let wasm = one_const_module(&config);

    config.preserve_code_transform(true);
    let mut module = config.parse(&wasm).unwrap();
    let check_id = module
        .customs
        .add(RawCustomSection { name: b"check-code-transform".to_vec(), data: vec![] });

    let f = FunctionId { index: 0 };
    let zero = module.funcs.i32_const(f, 0);
    let dropped = module.funcs.drop_expr(f, zero);
    module.funcs.insert_in_entry(f, 0, dropped);

    let _wasm2 = module.emit_wasm();

    // The hook ran exactly once, with a non-empty transform.
    assert_eq!(module.customs.hook_runs(check_id).unwrap(), 1);
    let transform = module.customs.last_transform(check_id).unwrap();
    assert!(!transform.is_empty());

    // Every original instruction lands exactly three bytes further down.
    for i in 0..transform.len() {
        let (input_offset, output_offset) = transform.get(i);
        assert_eq!(input_offset + 3, output_offset);
    }

    // Monotone in both coordinates.
    for i in 1..transform.len() {
        assert!(transform.get(i - 1).0 <= transform.get(i).0);
        assert!(transform.get(i - 1).1 <= transform.get(i).1);
    }
}

#[test]
fn no_hook_without_flag() {
    let mut config = ModuleConfig::new();
    config.generate_producers_section(false);
    let wasm = one_const_module(&config);
    let mut module = config.parse(&wasm).unwrap();
    let id = module.customs.add(RawCustomSection { name: b"meta".to_vec(), data: vec![] });
    let _ = module.emit_wasm();
    assert_eq!(module.customs.hook_runs(id).unwrap(), 0);
    assert!(module.customs.last_transform(id).is_none());
}

#[test]
fn no_hook_without_parsed_code() {
    // A freshly built module carries no original offsets, so there is nothing
    // to map and the hooks are not invoked.
    let mut config = ModuleConfig::new();
    config.generate_producers_section(false);
    config.preserve_code_transform(true);
    let mut module = Module::with_config(config.clone());
    let ty = module.types.add(vec![], vec![ValType::I32]);
    let mut builder = FunctionBuilder::new();
    let c = builder.i32_const(7);
    builder.finish(ty, vec![], vec![c], &mut module);
    let id = module.customs.add(RawCustomSection { name: b"meta".to_vec(), data: vec![] });
    let _ = module.emit_wasm();
    assert_eq!(module.customs.hook_runs(id).unwrap(), 0);
}

#[test]
fn round_trip_function_module() {
    let mut config = ModuleConfig::new();
    config.generate_producers_section(false);
    let wasm = one_const_module(&config);
    let mut module = config.parse(&wasm).unwrap();
    let wasm2 = module.emit_wasm();
    assert_eq!(wasm, wasm2);
}

#[test]
fn round_trip_with_instrumentation() {
    // After instrumentation, the emitted bytes decode back to the same
    // observable module and re-encode to the same bytes.
    let mut config = ModuleConfig::new();
    config.generate_producers_section(false);
    let wasm = one_const_module(&config);
    let mut module = config.parse(&wasm).unwrap();
    let f = FunctionId { index: 0 };
    let zero = module.funcs.i32_const(f, 0);
    let dropped = module.funcs.drop_expr(f, zero);
    module.funcs.insert_in_entry(f, 0, dropped);
    let wasm2 = module.emit_wasm();
    assert_ne!(wasm, wasm2);
    let mut module2 = config.parse(&wasm2).unwrap();
    let wasm3 = module2.emit_wasm();
    assert_eq!(wasm2, wasm3);
}
