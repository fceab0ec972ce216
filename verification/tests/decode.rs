//! Tests for the binary format itself: exact bytes, decode errors, and the
//! feature flags that gate decoding.

use walrus::{ErrorKind, FunctionBuilder, Module, ModuleConfig, ValType};

fn no_producers() -> ModuleConfig {
    let mut config = ModuleConfig::new();
    config.generate_producers_section(false);
    config
}

#[test]
fn empty_module_bytes() {
    let mut module = Module::with_config(no_producers());
    assert_eq!(module.emit_wasm(), vec![0x00, 0x61, 0x73, 0x6D, 0x01, 0x00, 0x00, 0x00]);
}

#[test]
fn producers_bytes() {
    let mut module = Module::with_config(ModuleConfig::new());
    let mut expected = vec![0x00, 0x61, 0x73, 0x6D, 0x01, 0x00, 0x00, 0x00];
    expected.extend(vec![0x00, 16, 9]);
    expected.extend(b"producers".to_vec());
    expected.extend(b"walrus".to_vec());
    assert_eq!(module.emit_wasm(), expected);
}

#[test]
fn one_function_bytes() {
    let mut module = Module::with_config(no_producers());
    let ty = module.types.add(vec![], vec![ValType::I32]);
    let mut builder = FunctionBuilder::new();
    let c = builder.i32_const(1337);
    let f_id = builder.finish(ty, vec![], vec![c], &mut module);
    module.exports.add("f", f_id);
    let expected = vec![
        0x00, 0x61, 0x73, 0x6D, 0x01, 0x00, 0x00, 0x00, // header
        0x01, 0x05, 0x01, 0x60, 0x00, 0x01, 0x7F, // type: [] -> [i32]
        0x03, 0x02, 0x01, 0x00, // function: one, of type 0
        0x07, 0x05, 0x01, 0x01, 0x66, 0x00, 0x00, // export: "f" -> func 0
        0x0A, 0x07, 0x01, 0x05, 0x00, 0x41, 0xB9, 0x0A, 0x0B, // code
    ];
    assert_eq!(module.emit_wasm(), expected);
}

#[test]
fn empty_round_trip() {
    let config = no_producers();
    let mut module = Module::with_config(config.clone());
    let wasm = module.emit_wasm();
    let mut again = config.parse(&wasm).unwrap();
    assert_eq!(again.customs.len(), 0);
    assert_eq!(again.types.len(), 0);
    assert_eq!(again.funcs.len(), 0);
    assert_eq!(again.exports.len(), 0);
    assert_eq!(again.emit_wasm(), wasm);
}

#[test]
fn decoded_signature_matches() {
    let config = no_producers();
    let mut module = Module::with_config(config.clone());
    let ty = module.types.add(vec![ValType::I64, ValType::F64], vec![ValType::I32]);
    let mut builder = FunctionBuilder::new();
    let c = builder.i32_const(5);
    builder.finish(ty, vec![ValType::F32], vec![c], &mut module);
    let wasm = module.emit_wasm();
    let mut config2 = config.clone();
    config2.strict_validate(false);
    let parsed = config2.parse(&wasm).unwrap();
    assert_eq!(parsed.types.len(), 1);
    let t = parsed.types.get(ty);
    assert_eq!(t.params, vec![ValType::I64, ValType::F64]);
    assert_eq!(t.results, vec![ValType::I32]);
    assert_eq!(parsed.funcs.len(), 1);
}

#[test]
fn truncated_input_is_rejected() {
    let config = ModuleConfig::new();
    assert_eq!(config.parse(&vec![0x00, 0x61]).unwrap_err().kind, ErrorKind::BadHeader);
}

#[test]
fn bad_magic_is_rejected() {
    let config = ModuleConfig::new();
    let bytes = vec![0x01, 0x61, 0x73, 0x6D, 0x01, 0x00, 0x00, 0x00];
    assert_eq!(config.parse(&bytes).unwrap_err().kind, ErrorKind::BadHeader);
}

#[test]
fn unknown_section_id_is_rejected() {
    let config = ModuleConfig::new();
    let mut bytes = vec![0x00, 0x61, 0x73, 0x6D, 0x01, 0x00, 0x00, 0x00];
    bytes.extend(vec![0x05, 0x00]);
    assert_eq!(config.parse(&bytes).unwrap_err().kind, ErrorKind::BadSection);
}

#[test]
fn truncated_varint_is_rejected() {
    let config = ModuleConfig::new();
    let mut bytes = vec![0x00, 0x61, 0x73, 0x6D, 0x01, 0x00, 0x00, 0x00];
    bytes.extend(vec![0x00, 0x80]);
    assert!(config.parse(&bytes).is_err());
}

#[test]
fn export_index_out_of_range_is_rejected() {
    let config = ModuleConfig::new();
    let mut bytes = vec![0x00, 0x61, 0x73, 0x6D, 0x01, 0x00, 0x00, 0x00];
    bytes.extend(vec![0x07, 0x05, 0x01, 0x01, 0x65, 0x00, 0x00]);
    assert_eq!(config.parse(&bytes).unwrap_err().kind, ErrorKind::IndexOutOfRange);
}

#[test]
fn discard_without_value_is_rejected() {
    let config = ModuleConfig::new();
    let mut bytes = vec![0x00, 0x61, 0x73, 0x6D, 0x01, 0x00, 0x00, 0x00];
    bytes.extend(vec![0x01, 0x04, 0x01, 0x60, 0x00, 0x00]); // type: [] -> []
    bytes.extend(vec![0x03, 0x02, 0x01, 0x00]); // one function
    bytes.extend(vec![0x0A, 0x05, 0x01, 0x03, 0x00, 0x1A, 0x0B]); // body: drop
    assert_eq!(config.parse(&bytes).unwrap_err().kind, ErrorKind::StackUnderflow);
}

#[test]
fn strict_validation_checks_results() {
    // A body that leaves a value although the type declares no results is
    // rejected under strict validation and accepted without it.
    let config = no_producers();
    let mut module = Module::with_config(config.clone());
    let ty = module.types.add(vec![], vec![]);
    let mut builder = FunctionBuilder::new();
    let c = builder.i32_const(5);
    builder.finish(ty, vec![], vec![c], &mut module);
    let wasm = module.emit_wasm();
    assert_eq!(config.parse(&wasm).unwrap_err().kind, ErrorKind::StrictViolation);
    let mut lax = config.clone();
    lax.strict_validate(false);
    assert!(lax.parse(&wasm).is_ok());
}

#[test]
fn stable_features_reject_v128() {
    let config = no_producers();
    let mut module = Module::with_config(config.clone());
    module.types.add(vec![ValType::V128], vec![]);
    let wasm = module.emit_wasm();
    assert!(config.parse(&wasm).is_ok());
    let mut stable = config.clone();
    stable.only_stable_features(true);
    assert_eq!(stable.parse(&wasm).unwrap_err().kind, ErrorKind::BadValType);
}

#[test]
fn default_configuration_flags() {
    // The default record: strict validation, name and producers sections on,
    // everything else off.
    let a = ModuleConfig::new();
    let b = ModuleConfig::default();
    assert_eq!(a, b);
}
