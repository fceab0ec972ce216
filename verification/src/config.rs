//! Per-parse configuration: a plain record of feature flags, immutable once
//! handed to a parse or emit call.

use vstd::prelude::*;
use crate::err::Error;
use crate::module::Module;

verus! {

/// Configuration for a `Module` which affects parsing and encoding.
///
/// Each flag mutates only this record, never external state, so the behavior
/// of a parse or emit call is fully reproducible from the record alone.
#[derive(Clone, Copy, Debug, PartialEq, Eq, Structural)]
pub struct ModuleConfig {
    pub generate_dwarf: bool,
    pub generate_synthetic_names_for_anonymous_items: bool,
    pub only_stable_features: bool,
    pub skip_strict_validate: bool,
    pub skip_producers_section: bool,
    pub skip_name_section: bool,
    pub preserve_code_transform: bool,
}

impl ModuleConfig {
    /// Creates a fresh new configuration with default settings.
    pub fn new() -> (r: ModuleConfig)
        ensures
            r == ModuleConfig::initial(),
    {
        ModuleConfig {
            generate_dwarf: false,
            generate_synthetic_names_for_anonymous_items: false,
            only_stable_features: false,
            skip_strict_validate: false,
            skip_producers_section: false,
            skip_name_section: false,
            preserve_code_transform: false,
        }
    }

    /// The default settings: strict validation on, producers and name sections
    /// on, everything else off.
    pub open spec fn initial() -> ModuleConfig {
        ModuleConfig {
            generate_dwarf: false,
            generate_synthetic_names_for_anonymous_items: false,
            only_stable_features: false,
            skip_strict_validate: false,
            skip_producers_section: false,
            skip_name_section: false,
            preserve_code_transform: false,
        }
    }

    /// Sets a flag to whether debug-info sections are generated for this
    /// module.
    ///
    /// By default this flag is `false`.
    pub fn generate_dwarf(&mut self, generate: bool)
        ensures
            *final(self) == (ModuleConfig { generate_dwarf: generate, ..*old(self) }),
    {
        self.generate_dwarf = generate;
    }

    /// Sets a flag to whether the metadata "name" section is generated for
    /// this module.
    ///
    /// By default this flag is `true`.
    pub fn generate_name_section(&mut self, generate: bool)
        ensures
            *final(self) == (ModuleConfig { skip_name_section: !generate, ..*old(self) }),
    {
        self.skip_name_section = !generate;
    }

    /// Sets a flag to whether synthetic debugging names are generated for
    /// anonymous items when parsing this module.
    ///
    /// By default this flag is `false`.
    pub fn generate_synthetic_names_for_anonymous_items(&mut self, generate: bool)
        ensures
            *final(self) == (ModuleConfig {
                generate_synthetic_names_for_anonymous_items: generate,
                ..*old(self)
            }),
    {
        self.generate_synthetic_names_for_anonymous_items = generate;
    }

    /// Indicates whether the module, after parsing, performs strict validation
    /// of function bodies against their declared signatures.
    ///
    /// This is not required to build a `Module` from bytes and can be disabled
    /// for speed on inputs already known to be valid.
    ///
    /// By default this flag is `true`.
    pub fn strict_validate(&mut self, strict: bool)
        ensures
            *final(self) == (ModuleConfig { skip_strict_validate: !strict, ..*old(self) }),
    {
        self.skip_strict_validate = !strict;
    }

    /// Indicates whether the module will carry a "producers" custom section
    /// identifying this library, appended during encode when none is present.
    ///
    /// By default this flag is `true`.
    pub fn generate_producers_section(&mut self, generate: bool)
        ensures
            *final(self) == (ModuleConfig { skip_producers_section: !generate, ..*old(self) }),
    {
        self.skip_producers_section = !generate;
    }

    /// Indicates whether this module is allowed to use only stable features.
    /// When set, value types outside the finalized format are rejected during
    /// decode.
    ///
    /// By default this flag is `false`.
    pub fn only_stable_features(&mut self, only: bool)
        ensures
            *final(self) == (ModuleConfig { only_stable_features: only, ..*old(self) }),
    {
        self.only_stable_features = only;
    }

    /// Sets a flag to whether a code transform is recorded during encoding and
    /// delivered to every custom section's transform hook.
    ///
    /// By default this flag is `false`.
    pub fn preserve_code_transform(&mut self, preserve: bool)
        ensures
            *final(self) == (ModuleConfig { preserve_code_transform: preserve, ..*old(self) }),
    {
        self.preserve_code_transform = preserve;
    }


    /// Parses an in-memory binary module into a `Module` using this
    /// configuration.
    pub fn parse(&self, wasm: &Vec<u8>) -> (r: Result<Module, Error>)
        ensures
            crate::codec::parse_ok(wasm@, *self) == (r is Ok),
            r matches Ok(m) ==> m.wf() && m@ == crate::codec::parse_spec(wasm@, *self)->Some_0
                && m.config == *self,
    {
        crate::codec::decode_module(wasm, self)
    }
}

impl Default for ModuleConfig {
    /// The default configuration, equal to `ModuleConfig::new()`.
    fn default() -> (r: ModuleConfig)
        ensures
            r == ModuleConfig::initial(),
    {
        ModuleConfig::new()
    }
}

} // verus!
