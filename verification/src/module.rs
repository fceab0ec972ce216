//! The module root: one aggregate owning every arena and the custom-section
//! registry, created empty or by decoding bytes, and re-encodable to bytes.

use vstd::prelude::*;
use crate::config::ModuleConfig;
use crate::customs::{CustomV, ModuleCustomSections, sections_of};
use crate::err::Error;
use crate::ir::{
    all_offs, flat_list, instrs_of, lemma_all_offs_push, lemma_offs_none_list, sorted, Expr,
    ExportV, ExprData, ExprId, FuncTypeV, FuncV, FunctionBuilder, FunctionId, LocalFunction,
    ModuleExports, ModuleFunctions, ModuleTypes, TypeId, ValType,
};

verus! {

/// Mathematical content of a module: its types, functions, exports and custom
/// sections, in arena order.
pub ghost struct ModuleV {
    pub types: Seq<FuncTypeV>,
    pub funcs: Seq<FuncV>,
    pub exports: Seq<ExportV>,
    pub customs: Seq<CustomV>,
}

/// The root in-memory representation of one binary program unit.
#[derive(Debug)]
pub struct Module {
    pub config: ModuleConfig,
    pub types: ModuleTypes,
    pub funcs: ModuleFunctions,
    pub exports: ModuleExports,
    pub customs: ModuleCustomSections,
}

impl View for Module {
    type V = ModuleV;

    open spec fn view(&self) -> ModuleV {
        ModuleV {
            types: self.types@,
            funcs: self.funcs@,
            exports: self.exports@,
            customs: sections_of(self.customs@),
        }
    }
}

impl Module {
    /// Module well-formedness: every function body is structurally sound,
    /// every identifier indexes its own arena, the registry is sound, and the
    /// recorded original offsets appear in non-decreasing emission order.
    pub open spec fn wf(self) -> bool {
        &&& self.funcs.wf()
        &&& forall|i: int|
            0 <= i < self.funcs@.len() ==> (#[trigger] self.funcs@[i]).ty < self.types@.len()
        &&& forall|i: int|
            0 <= i < self.exports@.len() ==> (#[trigger] self.exports@[i]).item
                < self.funcs@.len()
        &&& self.customs.wf()
        &&& sorted(all_offs(self.funcs.list@))
    }

    /// Every discard in every body owns a producer.
    pub open spec fn wf_typed(self) -> bool {
        forall|i: int|
            0 <= i < self.funcs.list@.len() ==> (#[trigger] self.funcs.list@[i]).wf_typed()
    }

    /// A fresh, empty module carrying the given configuration.
    pub fn with_config(config: ModuleConfig) -> (r: Module)
        ensures
            r.wf(),
            r.config == config,
            r@.types =~= Seq::<FuncTypeV>::empty(),
            r@.funcs =~= Seq::<FuncV>::empty(),
            r@.exports =~= Seq::<ExportV>::empty(),
            r@.customs =~= Seq::<CustomV>::empty(),
            r.customs.next_id == 0,
            r.customs@ =~= Seq::<crate::customs::EntryV>::empty(),
            r.wf_typed(),
    {
        let m = Module {
            config,
            types: ModuleTypes { list: Vec::new() },
            funcs: ModuleFunctions { list: Vec::new() },
            exports: ModuleExports { list: Vec::new() },
            customs: ModuleCustomSections::new(),
        };
        proof {
            assert(all_offs(m.funcs.list@) =~= Seq::<usize>::empty());
        }
        m
    }

    /// Parses an in-memory binary module using this module's configuration
    /// rules; equivalent to `config.parse`.
    pub fn parse(wasm: &Vec<u8>, config: &ModuleConfig) -> (r: Result<Module, Error>)
        ensures
            crate::codec::parse_ok(wasm@, *config) == (r is Ok),
            r matches Ok(m) ==> m.wf() && m@ == crate::codec::parse_spec(wasm@, *config)->Some_0
                && m.config == *config,
    {
        crate::codec::decode_module(wasm, config)
    }

    /// Serializes the module to bytes under its configuration; when transform
    /// preservation is on and re-encoded code carried original offsets, the
    /// recorded transform is delivered once to every custom section's hook.
    pub fn emit_wasm(&mut self) -> (r: Vec<u8>)
        requires
            old(self).wf(),
            old(self).customs.hooks_headroom(),
        ensures
            final(self).wf(),
            r@ == crate::codec::emit_spec(old(self)@, old(self).config),
            final(self)@ == old(self)@,
            final(self).config == old(self).config,
            final(self).types == old(self).types,
            final(self).funcs == old(self).funcs,
            final(self).exports == old(self).exports,
            crate::codec::emit_hooks_run(*old(self), old(self).config) ==> {
                &&& final(self).customs@.len() == old(self).customs@.len()
                &&& forall|i: int|
                    0 <= i < old(self).customs@.len() ==> {
                        &&& (#[trigger] final(self).customs@[i]).id == old(self).customs@[i].id
                        &&& final(self).customs@[i].section == old(self).customs@[i].section
                        &&& final(self).customs@[i].hook_runs == old(self).customs@[i].hook_runs
                            + 1
                        &&& final(self).customs@[i].last_transform matches Some(t) && t.len() > 0
                            && crate::codec::pairs_sorted(t)
                    }
            },
            !crate::codec::emit_hooks_run(*old(self), old(self).config) ==> final(self).customs
                == old(self).customs,
    {
        crate::codec::encode_module(self)
    }
}

impl FunctionBuilder {
    /// Finalizes the draft into a function owned by `module`'s function arena,
    /// with the given declared type, local declarations, and entry-block root
    /// list, and returns the function's fresh identifier.
    pub fn finish(
        self,
        ty: TypeId,
        locals: Vec<ValType>,
        entry: Vec<ExprId>,
        module: &mut Module,
    ) -> (r: FunctionId)
        requires
            self.wf(),
            old(module).wf(),
            ty.index < old(module).types@.len(),
            forall|k: int|
                0 <= k < entry@.len() ==> (#[trigger] entry@[k]).index < self.exprs@.len(),
        ensures
            final(module).wf(),
            r.index == old(module).funcs@.len(),
            final(module).config == old(module).config,
            final(module).types == old(module).types,
            final(module).exports == old(module).exports,
            final(module).customs == old(module).customs,
            final(module).funcs.list@.len() == old(module).funcs.list@.len() + 1,
            forall|j: int|
                0 <= j < old(module).funcs.list@.len()
                    ==> #[trigger] final(module).funcs.list@[j] == old(module).funcs.list@[j],
            final(module).funcs.list@.last().ty == ty,
            final(module).funcs.list@.last().locals == locals,
            final(module).funcs.list@.last().exprs == self.exprs,
            final(module).funcs.list@.last().entry == entry,
            final(module)@.funcs == old(module)@.funcs.push(
                FuncV {
                    ty: ty.index as int,
                    locals: locals@,
                    body: instrs_of(flat_list(self.exprs@, entry@)),
                },
            ),
            old(module).wf_typed() && (forall|j: int|
                0 <= j < self.exprs@.len() ==> (#[trigger] self.exprs@[j].expr matches Expr::Drop(
                    c,
                ) ==> self.exprs@[c.index as int].expr is I32Const)) ==> final(module).wf_typed(),
    {
        let ghost exprs_v = self.exprs@;
        let ghost entry_v = entry@;
        let func = LocalFunction { ty, locals, exprs: self.exprs, entry };
        let id = FunctionId { index: module.funcs.list.len() };
        module.funcs.list.push(func);
        proof {
            lemma_offs_none_list(exprs_v, entry_v);
            lemma_all_offs_push(old(module).funcs.list@, module.funcs.list@.last());
            assert(all_offs(module.funcs.list@) =~= all_offs(old(module).funcs.list@));
            assert(final(module)@.funcs =~= old(module)@.funcs.push(
                FuncV {
                    ty: ty.index as int,
                    locals: module.funcs.list@.last().locals@,
                    body: instrs_of(flat_list(exprs_v, entry_v)),
                },
            ));
        }
        id
    }
}

} // verus!
