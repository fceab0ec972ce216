//! Tests for working with custom sections that the library doesn't know
//! about.

use walrus::{Module, ModuleConfig, RawCustomSection};

#[derive(Clone, Debug, Default, PartialEq, Eq)]
struct HelloCustomSection(String);

impl HelloCustomSection {
    fn parse(data: &[u8]) -> Option<Self> {
        let data = std::str::from_utf8(data).ok()?;
        if !data.starts_with("Hello, ") || !data.ends_with("!") {
            return None;
        }
        let who = data["Hello, ".len()..data.len() - 1].to_string();
        Some(HelloCustomSection(who))
    }

    fn name(&self) -> &str {
        "hello"
    }

    fn data(&self) -> Vec<u8> {
        format!("Hello, {}!", self.0).into_bytes()
    }

    fn raw(&self) -> RawCustomSection {
        RawCustomSection { name: self.name().as_bytes().to_vec(), data: self.data() }
    }
}

#[test]
fn round_trip_unkown_custom_sections() {
    let mut config = ModuleConfig::new();
    config.generate_producers_section(false);

    let mut module = Module::with_config(config.clone());

    let world = HelloCustomSection("World".into());
    let world_id = module.customs.add(world.raw());
    assert_eq!(module.customs.get(world_id).unwrap().data, world.data());

    assert_eq!(
        module
            .customs
            .iter()
            .into_iter()
            .map(|(id, s)| (id, s.data))
            .collect::<Vec<_>>(),
        vec![(world_id, world.data())]
    );

    let wasm = module.emit_wasm();
    let mut module = config.parse(&wasm).unwrap();

    let world_round_tripped = module.customs.remove_raw("hello").unwrap();
    assert_eq!(world_round_tripped.data, world.data());

    let new_world = HelloCustomSection::parse(&world.data()).unwrap();
    assert_eq!(new_world.data(), world.data());
    module.customs.add(new_world.raw());

    let new_wasm = module.emit_wasm();
    assert_eq!(wasm, new_wasm);
}

#[test]
fn registry_keeps_insertion_order() {
    let mut module = Module::with_config(ModuleConfig::new());
    let a = module.customs.add(RawCustomSection { name: b"a".to_vec(), data: vec![1] });
    let b = module.customs.add(RawCustomSection { name: b"b".to_vec(), data: vec![2] });
    let c = module.customs.add(RawCustomSection { name: b"c".to_vec(), data: vec![3] });
    let order: Vec<_> = module.customs.iter().into_iter().map(|(id, s)| (id, s.name)).collect();
    assert_eq!(
        order,
        vec![(a, b"a".to_vec()), (b, b"b".to_vec()), (c, b"c".to_vec())]
    );
    // Removal keeps the order and identifiers of the remaining entries.
    module.customs.remove_raw("b").unwrap();
    let order: Vec<_> = module.customs.iter().into_iter().map(|(id, s)| (id, s.name)).collect();
    assert_eq!(order, vec![(a, b"a".to_vec()), (c, b"c".to_vec())]);
    assert!(module.customs.get(b).is_none());
    assert!(module.customs.remove_raw("b").is_none());
}

#[test]
fn decoded_sections_keep_file_order() {
    let mut config = ModuleConfig::new();
    config.generate_producers_section(false);
    let mut module = Module::with_config(config.clone());
    module.customs.add(RawCustomSection { name: b"first".to_vec(), data: vec![9] });
    module.customs.add(RawCustomSection { name: b"second".to_vec(), data: vec![] });
    let wasm = module.emit_wasm();
    let module = config.parse(&wasm).unwrap();
    let names: Vec<_> = module.customs.iter().into_iter().map(|(_, s)| s.name).collect();
    assert_eq!(names, vec![b"first".to_vec(), b"second".to_vec()]);
}

#[test]
fn producers_section_appended_once() {
    // Default configuration appends a producers entry during encode; decoding
    // and re-encoding must not add a second one.
    let config = ModuleConfig::new();
    let mut module = Module::with_config(config.clone());
    let wasm = module.emit_wasm();
    let mut module2 = config.parse(&wasm).unwrap();
    let names: Vec<_> = module2.customs.iter().into_iter().map(|(_, s)| s.name).collect();
    assert_eq!(names, vec![b"producers".to_vec()]);
    let wasm2 = module2.emit_wasm();
    assert_eq!(wasm, wasm2);
}
