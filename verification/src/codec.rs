//! The binary engine: the byte-level meaning of a module (specification
//! encode and parse functions) and the executable encoder and decoder proved
//! against it.
//!
//! A module is a header followed by sections in canonical order: function
//! types, function declarations, exports, code bodies, then custom sections.
//! Every section is its identifier byte, its payload length as a
//! variable-length integer, and its payload. Decoding fails with a structured
//! error on truncation, a malformed varint, an out-of-range index, a
//! non-canonical instruction stream, or a strict-validation violation.

use vstd::prelude::*;
use crate::config::ModuleConfig;
use crate::customs::{
    CodeTransform, CustomEntry, CustomV, ModuleCustomSections, RawCustomSection,
};
use crate::err::{Error, ErrorKind};
use crate::ir::{
    all_offs, exprs_wf, flat_expr, flat_list, instrs_of, lemma_all_offs_push,
    lemma_flat_list_concat, lemma_flat_list_push, lemma_flat_list_single, lemma_offs_concat,
    offs, sorted, Expr, ExprData, ExprId, FuncType, FuncTypeV, FuncV, Instr, LocalFunction,
    ModuleExports, ModuleFunctions, ModuleTypes, TypeId, ValType, Export, ExportV,
};
use crate::leb::{
    parse_u32, parse_u64, parse_uleb, read_uleb, read_uleb64, uleb, write_uleb,
    lemma_parse_uleb_suffix,
};
use crate::module::{Module, ModuleV};

verus! {

// ---------------------------------------------------------------------------
// Byte-level meaning: encoding
// ---------------------------------------------------------------------------

/// The fixed module header: magic bytes and format version one.
pub open spec fn header() -> Seq<u8> {
    seq![0x00u8, 0x61u8, 0x73u8, 0x6Du8, 0x01u8, 0x00u8, 0x00u8, 0x00u8]
}

/// The wire byte of a value type.
pub open spec fn valtype_byte(t: ValType) -> u8 {
    match t {
        ValType::I32 => 0x7F,
        ValType::I64 => 0x7E,
        ValType::F32 => 0x7D,
        ValType::F64 => 0x7C,
        ValType::V128 => 0x7B,
    }
}

/// The bytes of a list of value types, one byte each.
pub open spec fn valtypes_bytes(ts: Seq<ValType>) -> Seq<u8>
    decreases ts.len(),
{
    if ts.len() == 0 {
        Seq::empty()
    } else {
        seq![valtype_byte(ts[0])] + valtypes_bytes(ts.skip(1))
    }
}

/// The bytes of one function type: a marker byte, then parameters and results,
/// each as a counted list.
pub open spec fn functype_bytes(t: FuncTypeV) -> Seq<u8> {
    seq![0x60u8] + uleb(t.params.len()) + valtypes_bytes(t.params) + uleb(t.results.len())
        + valtypes_bytes(t.results)
}

/// The bytes of a list of function types.
pub open spec fn functypes_bytes(ts: Seq<FuncTypeV>) -> Seq<u8>
    decreases ts.len(),
{
    if ts.len() == 0 {
        Seq::empty()
    } else {
        functype_bytes(ts[0]) + functypes_bytes(ts.skip(1))
    }
}

/// A framed section: identifier byte, payload length, payload.
pub open spec fn section_bytes(id: u8, p: Seq<u8>) -> Seq<u8> {
    seq![id] + uleb(p.len()) + p
}

/// The type section; omitted when the type arena is empty.
pub open spec fn type_section(ts: Seq<FuncTypeV>) -> Seq<u8> {
    if ts.len() == 0 {
        Seq::empty()
    } else {
        section_bytes(1, uleb(ts.len()) + functypes_bytes(ts))
    }
}

/// The declared type indices of the functions, one varint each.
pub open spec fn sigs_bytes(fs: Seq<FuncV>) -> Seq<u8>
    decreases fs.len(),
{
    if fs.len() == 0 {
        Seq::empty()
    } else {
        uleb(fs[0].ty as nat) + sigs_bytes(fs.skip(1))
    }
}

/// The function section; omitted when the function arena is empty.
pub open spec fn func_section(fs: Seq<FuncV>) -> Seq<u8> {
    if fs.len() == 0 {
        Seq::empty()
    } else {
        section_bytes(3, uleb(fs.len()) + sigs_bytes(fs))
    }
}

/// The bytes of one export: name length, name, the function kind byte, index.
pub open spec fn export_bytes(e: ExportV) -> Seq<u8> {
    uleb(e.name.len()) + e.name + seq![0x00u8] + uleb(e.item as nat)
}

/// The bytes of a list of exports.
pub open spec fn exports_bytes(es: Seq<ExportV>) -> Seq<u8>
    decreases es.len(),
{
    if es.len() == 0 {
        Seq::empty()
    } else {
        export_bytes(es[0]) + exports_bytes(es.skip(1))
    }
}

/// The export section; omitted when the export arena is empty.
pub open spec fn export_section(es: Seq<ExportV>) -> Seq<u8> {
    if es.len() == 0 {
        Seq::empty()
    } else {
        section_bytes(7, uleb(es.len()) + exports_bytes(es))
    }
}

/// The bytes of one instruction.
pub open spec fn instr_bytes(i: Instr) -> Seq<u8> {
    match i {
        Instr::I32Const(v) => seq![0x41u8] + uleb(v as nat),
        Instr::Drop => seq![0x1Au8],
    }
}

/// The bytes of an instruction sequence.
pub open spec fn instrs_bytes(s: Seq<Instr>) -> Seq<u8>
    decreases s.len(),
{
    if s.len() == 0 {
        Seq::empty()
    } else {
        instr_bytes(s[0]) + instrs_bytes(s.skip(1))
    }
}

/// The payload of one code body: counted local declarations, the instruction
/// stream, and the terminator byte.
pub open spec fn body_payload(f: FuncV) -> Seq<u8> {
    uleb(f.locals.len()) + valtypes_bytes(f.locals) + instrs_bytes(f.body) + seq![0x0Bu8]
}

/// One framed code body: its payload length, then the payload.
pub open spec fn body_bytes(f: FuncV) -> Seq<u8> {
    uleb(body_payload(f).len()) + body_payload(f)
}

/// The bytes of all code bodies, in arena order.
pub open spec fn bodies_bytes(fs: Seq<FuncV>) -> Seq<u8>
    decreases fs.len(),
{
    if fs.len() == 0 {
        Seq::empty()
    } else {
        body_bytes(fs[0]) + bodies_bytes(fs.skip(1))
    }
}

/// The code section; omitted when the function arena is empty.
pub open spec fn code_section(fs: Seq<FuncV>) -> Seq<u8> {
    if fs.len() == 0 {
        Seq::empty()
    } else {
        section_bytes(10, uleb(fs.len()) + bodies_bytes(fs))
    }
}

/// One custom section: name length, name bytes, then the raw payload.
pub open spec fn custom_bytes(c: CustomV) -> Seq<u8> {
    section_bytes(0, uleb(c.name.len()) + c.name + c.data)
}

/// The bytes of the custom sections, in registry order.
pub open spec fn customs_bytes(cs: Seq<CustomV>) -> Seq<u8>
    decreases cs.len(),
{
    if cs.len() == 0 {
        Seq::empty()
    } else {
        custom_bytes(cs[0]) + customs_bytes(cs.skip(1))
    }
}

/// The name of the producers metadata section.
pub open spec fn producers_name() -> Seq<u8> {
    seq![0x70u8, 0x72u8, 0x6Fu8, 0x64u8, 0x75u8, 0x63u8, 0x65u8, 0x72u8, 0x73u8]
}

/// The payload identifying this library as a producer.
pub open spec fn producers_data() -> Seq<u8> {
    seq![0x77u8, 0x61u8, 0x6Cu8, 0x72u8, 0x75u8, 0x73u8]
}

/// Whether some stored custom section carries the given name.
pub open spec fn has_custom_named(cs: Seq<CustomV>, n: Seq<u8>) -> bool {
    exists|i: int| 0 <= i < cs.len() && (#[trigger] cs[i]).name == n
}

/// The custom sections an encode emits: the stored ones, with a producers
/// entry appended when the configuration asks for one and none is present.
pub open spec fn emitted_customs(cs: Seq<CustomV>, cfg: ModuleConfig) -> Seq<CustomV> {
    if cfg.skip_producers_section || has_custom_named(cs, producers_name()) {
        cs
    } else {
        cs.push(CustomV { name: producers_name(), data: producers_data() })
    }
}

/// The full encoding of a module under a configuration.
pub open spec fn emit_spec(m: ModuleV, cfg: ModuleConfig) -> Seq<u8> {
    header() + type_section(m.types) + func_section(m.funcs) + export_section(m.exports)
        + code_section(m.funcs) + customs_bytes(emitted_customs(m.customs, cfg))
}

/// Whether an encode of this module delivers the transform to the hooks: the
/// flag is set and some re-encoded instruction carries an original offset.
pub open spec fn emit_hooks_run(m: Module, cfg: ModuleConfig) -> bool {
    cfg.preserve_code_transform && all_offs(m.funcs.list@).len() > 0
}

/// Pairs sorted in both coordinates.
pub open spec fn pairs_sorted(t: Seq<(usize, usize)>) -> bool {
    forall|i: int, j: int|
        0 <= i <= j < t.len() ==> (#[trigger] t[i]).0 <= (#[trigger] t[j]).0 && t[i].1 <= t[j].1
}

/// The transform pairs produced by re-encoding a flattening at byte position
/// `base` of the output: one pair per instruction that carries an original
/// offset, mapping it to the instruction's fresh output position.
pub open spec fn trans_of(fl: Seq<(Instr, Option<usize>)>, base: int) -> Seq<(usize, usize)>
    decreases fl.len(),
{
    if fl.len() == 0 {
        Seq::empty()
    } else {
        (match fl[0].1 {
            Some(o) => seq![(o, base as usize)],
            None => Seq::<(usize, usize)>::empty(),
        }) + trans_of(fl.skip(1), base + instr_bytes(fl[0].0).len())
    }
}

// ---------------------------------------------------------------------------
// Byte-level meaning: parsing
// ---------------------------------------------------------------------------

/// Reads one value type byte; `V128` is rejected under stable-features-only.
pub open spec fn parse_valtype(p: Seq<u8>, cfg: ModuleConfig) -> Option<(ValType, Seq<u8>)> {
    if p.len() == 0 {
        None
    } else if p[0] == 0x7F {
        Some((ValType::I32, p.skip(1)))
    } else if p[0] == 0x7E {
        Some((ValType::I64, p.skip(1)))
    } else if p[0] == 0x7D {
        Some((ValType::F32, p.skip(1)))
    } else if p[0] == 0x7C {
        Some((ValType::F64, p.skip(1)))
    } else if p[0] == 0x7B && !cfg.only_stable_features {
        Some((ValType::V128, p.skip(1)))
    } else {
        None
    }
}

/// Reads exactly `n` value types.
pub open spec fn parse_valtypes(p: Seq<u8>, n: nat, cfg: ModuleConfig) -> Option<
    (Seq<ValType>, Seq<u8>),
>
    decreases n,
{
    if n == 0 {
        Some((Seq::empty(), p))
    } else {
        match parse_valtype(p, cfg) {
            Some((t, r)) => match parse_valtypes(r, (n - 1) as nat, cfg) {
                Some((ts, r2)) => Some((seq![t] + ts, r2)),
                None => None,
            },
            None => None,
        }
    }
}

/// Reads one function type.
pub open spec fn parse_functype(p: Seq<u8>, cfg: ModuleConfig) -> Option<(FuncTypeV, Seq<u8>)> {
    if p.len() == 0 || p[0] != 0x60 {
        None
    } else {
        match parse_u64(p.skip(1)) {
            Some((np, r1)) => match parse_valtypes(r1, np as nat, cfg) {
                Some((params, r2)) => match parse_u64(r2) {
                    Some((nr, r3)) => match parse_valtypes(r3, nr as nat, cfg) {
                        Some((results, r4)) => Some((FuncTypeV { params, results }, r4)),
                        None => None,
                    },
                    None => None,
                },
                None => None,
            },
            None => None,
        }
    }
}

/// Reads exactly `n` function types.
pub open spec fn parse_functypes(p: Seq<u8>, n: nat, cfg: ModuleConfig) -> Option<
    (Seq<FuncTypeV>, Seq<u8>),
>
    decreases n,
{
    if n == 0 {
        Some((Seq::empty(), p))
    } else {
        match parse_functype(p, cfg) {
            Some((t, r)) => match parse_functypes(r, (n - 1) as nat, cfg) {
                Some((ts, r2)) => Some((seq![t] + ts, r2)),
                None => None,
            },
            None => None,
        }
    }
}

/// Frames a section that is known to start at `r`: its payload and the bytes
/// after it, or `None` when the length is malformed or runs past the end.
pub open spec fn frame_section(r: Seq<u8>) -> Option<(Seq<u8>, Seq<u8>)> {
    match parse_u64(r.skip(1)) {
        Some((size, r1)) => if size as int <= r1.len() {
            Some((r1.take(size as int), r1.skip(size as int)))
        } else {
            None
        },
        None => None,
    }
}

/// The type section, when present; an empty arena when absent.
pub open spec fn parse_types_opt(r: Seq<u8>, cfg: ModuleConfig) -> Option<
    (Seq<FuncTypeV>, Seq<u8>),
> {
    if r.len() == 0 || r[0] != 1 {
        Some((Seq::empty(), r))
    } else {
        match frame_section(r) {
            Some((p, rest)) => match parse_type_payload(p, cfg) {
                Some(ts) => Some((ts, rest)),
                None => None,
            },
            None => None,
        }
    }
}

/// The full payload of the function section: a counted list of type indices
/// filling the payload exactly.
pub open spec fn parse_sigs_payload(p: Seq<u8>, ntypes: nat) -> Option<Seq<int>> {
    match parse_u64(p) {
        Some((n, p1)) => match parse_sigs(p1, n as nat, ntypes) {
            Some((vs, p2)) => if p2.len() == 0 {
                Some(vs)
            } else {
                None
            },
            None => None,
        },
        None => None,
    }
}

/// The full payload of the export section: a counted list of exports filling
/// the payload exactly.
pub open spec fn parse_exports_payload(p: Seq<u8>, nfuncs: nat) -> Option<Seq<ExportV>> {
    match parse_u64(p) {
        Some((n, p1)) => match parse_exports(p1, n as nat, nfuncs) {
            Some((es, p2)) => if p2.len() == 0 {
                Some(es)
            } else {
                None
            },
            None => None,
        },
        None => None,
    }
}

/// Reads exactly `n` declared type indices, each below `ntypes`.
pub open spec fn parse_sigs(p: Seq<u8>, n: nat, ntypes: nat) -> Option<(Seq<int>, Seq<u8>)>
    decreases n,
{
    if n == 0 {
        Some((Seq::empty(), p))
    } else {
        match parse_u64(p) {
            Some((v, r)) => if (v as nat) < ntypes {
                match parse_sigs(r, (n - 1) as nat, ntypes) {
                    Some((vs, r2)) => Some((seq![v as int] + vs, r2)),
                    None => None,
                }
            } else {
                None
            },
            None => None,
        }
    }
}

/// The function section, when present; an empty list when absent.
pub open spec fn parse_sigs_opt(r: Seq<u8>, ntypes: nat) -> Option<(Seq<int>, Seq<u8>)> {
    if r.len() == 0 || r[0] != 3 {
        Some((Seq::empty(), r))
    } else {
        match frame_section(r) {
            Some((p, rest)) => match parse_sigs_payload(p, ntypes) {
                Some(vs) => Some((vs, rest)),
                None => None,
            },
            None => None,
        }
    }
}

/// Reads one export: a counted name, the function kind byte, and an index
/// below `nfuncs`.
pub open spec fn parse_export(p: Seq<u8>, nfuncs: nat) -> Option<(ExportV, Seq<u8>)> {
    match parse_u64(p) {
        Some((nlen, r1)) => if nlen as int <= r1.len() {
            {
                let name = r1.take(nlen as int);
                let r2 = r1.skip(nlen as int);
                if r2.len() == 0 || r2[0] != 0x00 {
                    None
                } else {
                    match parse_u64(r2.skip(1)) {
                        Some((idx, r3)) => if (idx as nat) < nfuncs {
                            Some((ExportV { name, item: idx as int }, r3))
                        } else {
                            None
                        },
                        None => None,
                    }
                }
            }
        } else {
            None
        },
        None => None,
    }
}

/// Reads exactly `n` exports.
pub open spec fn parse_exports(p: Seq<u8>, n: nat, nfuncs: nat) -> Option<(Seq<ExportV>, Seq<u8>)>
    decreases n,
{
    if n == 0 {
        Some((Seq::empty(), p))
    } else {
        match parse_export(p, nfuncs) {
            Some((e, r)) => match parse_exports(r, (n - 1) as nat, nfuncs) {
                Some((es, r2)) => Some((seq![e] + es, r2)),
                None => None,
            },
            None => None,
        }
    }
}

/// The export section, when present; an empty list when absent.
pub open spec fn parse_exports_opt(r: Seq<u8>, nfuncs: nat) -> Option<(Seq<ExportV>, Seq<u8>)> {
    if r.len() == 0 || r[0] != 7 {
        Some((Seq::empty(), r))
    } else {
        match frame_section(r) {
            Some((p, rest)) => match parse_exports_payload(p, nfuncs) {
                Some(es) => Some((es, rest)),
                None => None,
            },
            None => None,
        }
    }
}

/// Reads the canonical instruction stream up to its terminator byte.
/// `last_prod` tells whether the previous instruction left a fresh value, the
/// only thing a discard may consume; a stream that discards anything else is
/// not in canonical form and is rejected.
pub open spec fn parse_instrs(p: Seq<u8>, last_prod: bool) -> Option<(Seq<Instr>, Seq<u8>)>
    decreases p.len() via parse_instrs_decreases
{
    if p.len() == 0 {
        None
    } else if p[0] == 0x0B {
        Some((Seq::empty(), p.skip(1)))
    } else if p[0] == 0x41 {
        match parse_u32(p.skip(1)) {
            Some((v, r)) => match parse_instrs(r, true) {
                Some((is, r2)) => Some((seq![Instr::I32Const(v)] + is, r2)),
                None => None,
            },
            None => None,
        }
    } else if p[0] == 0x1A {
        if last_prod {
            match parse_instrs(p.skip(1), false) {
                Some((is, r2)) => Some((seq![Instr::Drop] + is, r2)),
                None => None,
            }
        } else {
            None
        }
    } else {
        None
    }
}

#[via_fn]
proof fn parse_instrs_decreases(p: Seq<u8>, last_prod: bool) {
    if p.len() > 0 && p[0] == 0x41 {
        lemma_parse_uleb_suffix(p.skip(1));
    }
}

/// Reads one framed code body: local declarations and the instruction stream,
/// which must fill the declared size exactly.
pub open spec fn parse_body(p: Seq<u8>, cfg: ModuleConfig) -> Option<
    ((Seq<ValType>, Seq<Instr>), Seq<u8>),
> {
    match parse_u64(p) {
        Some((size, r1)) => if size as int <= r1.len() {
            {
                let bp = r1.take(size as int);
                match parse_u64(bp) {
                    Some((nl, b1)) => match parse_valtypes(b1, nl as nat, cfg) {
                        Some((locals, b2)) => match parse_instrs(b2, false) {
                            Some((body, b3)) => if b3.len() == 0 {
                                Some(((locals, body), r1.skip(size as int)))
                            } else {
                                None
                            },
                            None => None,
                        },
                        None => None,
                    },
                    None => None,
                }
            }
        } else {
            None
        },
        None => None,
    }
}

/// Reads one body per declared signature, pairing them in order.
pub open spec fn parse_bodies(p: Seq<u8>, sigs: Seq<int>, cfg: ModuleConfig) -> Option<
    (Seq<FuncV>, Seq<u8>),
>
    decreases sigs.len(),
{
    if sigs.len() == 0 {
        Some((Seq::empty(), p))
    } else {
        match parse_body(p, cfg) {
            Some(((locals, body), r)) => match parse_bodies(r, sigs.skip(1), cfg) {
                Some((fs, r2)) => Some(
                    (seq![FuncV { ty: sigs[0], locals, body }] + fs, r2),
                ),
                None => None,
            },
            None => None,
        }
    }
}

/// The code section: required exactly when functions were declared, and its
/// body count must match the declaration count.
pub open spec fn parse_code_opt(r: Seq<u8>, sigs: Seq<int>, cfg: ModuleConfig) -> Option<
    (Seq<FuncV>, Seq<u8>),
> {
    if r.len() == 0 || r[0] != 10 {
        if sigs.len() == 0 {
            Some((Seq::empty(), r))
        } else {
            None
        }
    } else {
        match frame_section(r) {
            Some((p, rest)) => match parse_code_payload(p, sigs, cfg) {
                Some(fs) => Some((fs, rest)),
                None => None,
            },
            None => None,
        }
    }
}

/// The full payload of the code section: one framed body per declared
/// signature, filling the payload exactly.
pub open spec fn parse_code_payload(p: Seq<u8>, sigs: Seq<int>, cfg: ModuleConfig) -> Option<
    Seq<FuncV>,
> {
    match parse_u64(p) {
        Some((n, p1)) => if n as int == sigs.len() {
            match parse_bodies(p1, sigs, cfg) {
                Some((fs, p2)) => if p2.len() == 0 {
                    Some(fs)
                } else {
                    None
                },
                None => None,
            }
        } else {
            None
        },
        None => None,
    }
}

/// Reads the trailing run of custom sections; anything else left over is a
/// malformed module.
pub open spec fn parse_customs(r: Seq<u8>) -> Option<Seq<CustomV>>
    decreases r.len() via parse_customs_decreases
{
    if r.len() == 0 {
        Some(Seq::empty())
    } else if r[0] != 0 {
        None
    } else {
        match frame_section(r) {
            Some((p, rest)) => match parse_u64(p) {
                Some((nlen, p1)) => if nlen as int <= p1.len() {
                    match parse_customs(rest) {
                        Some(cs) => Some(
                            seq![
                                CustomV { name: p1.take(nlen as int), data: p1.skip(nlen as int) },
                            ] + cs,
                        ),
                        None => None,
                    }
                } else {
                    None
                },
                None => None,
            },
            None => None,
        }
    }
}

#[via_fn]
proof fn parse_customs_decreases(r: Seq<u8>) {
    if r.len() > 0 && r[0] == 0 {
        lemma_parse_uleb_suffix(r.skip(1));
    }
}

/// The full payload of the type section: a counted list of function types
/// filling the payload exactly.
pub open spec fn parse_type_payload(p: Seq<u8>, cfg: ModuleConfig) -> Option<Seq<FuncTypeV>> {
    match parse_u64(p) {
        Some((n, p1)) => match parse_functypes(p1, n as nat, cfg) {
            Some((ts, p2)) => if p2.len() == 0 {
                Some(ts)
            } else {
                None
            },
            None => None,
        },
        None => None,
    }
}

/// The net number of values an instruction sequence leaves behind.
pub open spec fn body_net(body: Seq<Instr>) -> int
    decreases body.len(),
{
    if body.len() == 0 {
        0
    } else {
        (match body[0] {
            Instr::I32Const(_) => 1int,
            Instr::Drop => -1int,
        }) + body_net(body.skip(1))
    }
}

/// Whether every declared result type is the 32-bit integer type.
pub open spec fn all_i32(rs: Seq<ValType>) -> bool {
    forall|i: int| 0 <= i < rs.len() ==> (#[trigger] rs[i]) == ValType::I32
}

/// The strict-validation rule for one function: its body leaves exactly the
/// declared results, each a 32-bit integer.
pub open spec fn strict_ok_fn(f: FuncV, types: Seq<FuncTypeV>) -> bool {
    &&& types[f.ty].results.len() == body_net(f.body)
    &&& all_i32(types[f.ty].results)
}

/// The strict-validation rule for a list of functions.
pub open spec fn strict_ok_funcs(fs: Seq<FuncV>, types: Seq<FuncTypeV>) -> bool {
    forall|i: int| 0 <= i < fs.len() ==> strict_ok_fn(#[trigger] fs[i], types)
}

/// The strict-validation rule for a whole module.
pub open spec fn strict_ok(m: ModuleV) -> bool {
    strict_ok_funcs(m.funcs, m.types)
}

/// The full parse of a byte buffer under a configuration: the module content,
/// or `None` exactly where the executable decoder fails.
pub open spec fn parse_spec(s: Seq<u8>, cfg: ModuleConfig) -> Option<ModuleV> {
    if s.len() < 8 || s.take(8) != header() {
        None
    } else {
        match parse_types_opt(s.skip(8), cfg) {
            Some((types, r1)) => match parse_sigs_opt(r1, types.len()) {
                Some((sigs, r2)) => match parse_exports_opt(r2, sigs.len()) {
                    Some((exports, r3)) => match parse_code_opt(r3, sigs, cfg) {
                        Some((funcs, r4)) => match parse_customs(r4) {
                            Some(customs) => {
                                let m = ModuleV { types, funcs, exports, customs };
                                if cfg.skip_strict_validate || strict_ok(m) {
                                    Some(m)
                                } else {
                                    None
                                }
                            },
                            None => None,
                        },
                        None => None,
                    },
                    None => None,
                },
                None => None,
            },
            None => None,
        }
    }
}

/// Whether a parse of these bytes succeeds.
pub open spec fn parse_ok(s: Seq<u8>, cfg: ModuleConfig) -> bool {
    parse_spec(s, cfg) is Some
}

// ---------------------------------------------------------------------------
// Helper lemmas on byte concatenation
// ---------------------------------------------------------------------------

/// Instruction bytes distribute over concatenation.
pub proof fn lemma_instrs_bytes_concat(a: Seq<Instr>, b: Seq<Instr>)
    ensures
        instrs_bytes(a + b) == instrs_bytes(a) + instrs_bytes(b),
    decreases a.len(),
{
    if a.len() == 0 {
        assert(a + b =~= b);
        assert(instrs_bytes(a) + instrs_bytes(b) =~= instrs_bytes(b));
    } else {
        lemma_instrs_bytes_concat(a.skip(1), b);
        assert((a + b).skip(1) =~= a.skip(1) + b);
        assert((a + b)[0] == a[0]);
        assert(instrs_bytes(a + b) =~= instrs_bytes(a) + instrs_bytes(b));
    }
}

/// The bytes of a single instruction.
pub proof fn lemma_instrs_bytes_single(x: Instr)
    ensures
        instrs_bytes(seq![x]) == instr_bytes(x),
{
    assert(seq![x].skip(1) =~= Seq::<Instr>::empty());
    assert(instrs_bytes(Seq::<Instr>::empty()) =~= Seq::<u8>::empty());
    assert(instrs_bytes(seq![x]) =~= instr_bytes(x));
}

/// Stripping offsets distributes over concatenation.
pub proof fn lemma_instrs_of_concat(a: Seq<(Instr, Option<usize>)>, b: Seq<(Instr, Option<usize>)>)
    ensures
        instrs_of(a + b) == instrs_of(a) + instrs_of(b),
{
    assert(instrs_of(a + b) =~= instrs_of(a) + instrs_of(b));
}

/// Transform pairs distribute over concatenation, with the base advanced by
/// the bytes of the first part.
pub proof fn lemma_trans_of_concat(
    a: Seq<(Instr, Option<usize>)>,
    b: Seq<(Instr, Option<usize>)>,
    base: int,
)
    ensures
        trans_of(a + b, base) == trans_of(a, base) + trans_of(
            b,
            base + instrs_bytes(instrs_of(a)).len(),
        ),
    decreases a.len(),
{
    if a.len() == 0 {
        assert(a + b =~= b);
        assert(instrs_of(a) =~= Seq::<Instr>::empty());
        assert(instrs_bytes(instrs_of(a)).len() == 0);
        assert(trans_of(a, base) + trans_of(b, base) =~= trans_of(b, base));
    } else {
        assert((a + b).skip(1) =~= a.skip(1) + b);
        assert((a + b)[0] == a[0]);
        let d = instr_bytes(a[0].0).len();
        lemma_trans_of_concat(a.skip(1), b, base + d);
        assert(instrs_of(a).skip(1) =~= instrs_of(a.skip(1)));
        assert(instrs_bytes(instrs_of(a)) == instr_bytes(a[0].0) + instrs_bytes(
            instrs_of(a.skip(1)),
        )) by {
            assert(instrs_of(a)[0] == a[0].0);
        }
        assert(trans_of(a + b, base) =~= trans_of(a, base) + trans_of(
            b,
            base + instrs_bytes(instrs_of(a)).len(),
        ));
    }
}

/// The pairs of a one-instruction flattening.
pub proof fn lemma_trans_of_single(p: (Instr, Option<usize>), base: int)
    ensures
        trans_of(seq![p], base) == (match p.1 {
            Some(o) => seq![(o, base as usize)],
            None => Seq::<(usize, usize)>::empty(),
        }),
{
    assert(seq![p].skip(1) =~= Seq::<(Instr, Option<usize>)>::empty());
    assert(trans_of(Seq::<(Instr, Option<usize>)>::empty(), base + instr_bytes(p.0).len()) =~= Seq::<
        (usize, usize),
    >::empty());
    assert(trans_of(seq![p], base) =~= (match p.1 {
        Some(o) => seq![(o, base as usize)],
        None => Seq::<(usize, usize)>::empty(),
    }));
}

/// The input offsets of a pair sequence.
pub open spec fn firsts(t: Seq<(usize, usize)>) -> Seq<usize> {
    t.map_values(|p: (usize, usize)| p.0)
}

/// The recorded pairs carry exactly the original offsets as inputs, and
/// outputs that stay within the emitted bytes in non-decreasing order.
pub proof fn lemma_trans_of_props(fl: Seq<(Instr, Option<usize>)>, base: int)
    requires
        0 <= base,
        base + instrs_bytes(instrs_of(fl)).len() <= usize::MAX,
    ensures
        firsts(trans_of(fl, base)) == offs(fl),
        forall|k: int|
            0 <= k < trans_of(fl, base).len() ==> base <= (#[trigger] trans_of(fl, base)[k]).1
                && trans_of(fl, base)[k].1 < base + instrs_bytes(instrs_of(fl)).len(),
        forall|k: int, l: int|
            0 <= k <= l < trans_of(fl, base).len() ==> (#[trigger] trans_of(fl, base)[k]).1 <= (
            #[trigger] trans_of(fl, base)[l]).1,
    decreases fl.len(),
{
    if fl.len() == 0 {
        assert(firsts(trans_of(fl, base)) =~= offs(fl));
    } else {
        let d = instr_bytes(fl[0].0).len();
        assert(d >= 1) by {
            match fl[0].0 {
                Instr::I32Const(v) => {
                    assert(instr_bytes(fl[0].0).len() == 1 + uleb(v as nat).len());
                },
                Instr::Drop => {},
            }
        }
        assert(instrs_of(fl).skip(1) =~= instrs_of(fl.skip(1)));
        assert(instrs_bytes(instrs_of(fl)) == instr_bytes(fl[0].0) + instrs_bytes(
            instrs_of(fl.skip(1)),
        )) by {
            assert(instrs_of(fl)[0] == fl[0].0);
        }
        lemma_trans_of_props(fl.skip(1), base + d);
        let head: Seq<(usize, usize)> = match fl[0].1 {
            Some(o) => seq![(o, base as usize)],
            None => Seq::<(usize, usize)>::empty(),
        };
        assert(trans_of(fl, base) == head + trans_of(fl.skip(1), base + d));
        assert(firsts(trans_of(fl, base)) =~= offs(fl));
    }
}

// ---------------------------------------------------------------------------
// Executable encoder
// ---------------------------------------------------------------------------

/// Appends the bytes of `p` to `out`.
fn append_bytes(out: &mut Vec<u8>, p: &Vec<u8>)
    ensures
        final(out)@ == old(out)@ + p@,
{
    let mut i: usize = 0;
    while i < p.len()
        invariant
            i <= p.len(),
            out@ =~= old(out)@ + p@.take(i as int),
        decreases p.len() - i,
    {
        out.push(p[i]);
        proof {
            assert(p@.take(i + 1) =~= p@.take(i as int).push(p@[i as int]));
        }
        i = i + 1;
    }
    proof {
        assert(p@.take(p@.len() as int) =~= p@);
    }
}

/// The wire byte of a value type.
fn valtype_to_byte(t: ValType) -> (r: u8)
    ensures
        r == valtype_byte(t),
{
    match t {
        ValType::I32 => 0x7F,
        ValType::I64 => 0x7E,
        ValType::F32 => 0x7D,
        ValType::F64 => 0x7C,
        ValType::V128 => 0x7B,
    }
}

/// Appends the value-type bytes of `ts` from position `i` on.
fn encode_valtypes_from(ts: &Vec<ValType>, i: usize, out: &mut Vec<u8>)
    requires
        i <= ts.len(),
    ensures
        final(out)@ == old(out)@ + valtypes_bytes(ts@.skip(i as int)),
    decreases ts.len() - i,
{
    if i == ts.len() {
        proof {
            assert(ts@.skip(i as int) =~= Seq::<ValType>::empty());
            assert(out@ =~= old(out)@ + valtypes_bytes(Seq::<ValType>::empty()));
        }
    } else {
        out.push(valtype_to_byte(ts[i]));
        encode_valtypes_from(ts, i + 1, out);
        proof {
            let s = ts@.skip(i as int);
            assert(s[0] == ts@[i as int]);
            assert(s.skip(1) =~= ts@.skip(i + 1));
            assert(out@ =~= old(out)@ + valtypes_bytes(s));
        }
    }
}

/// Appends the function-type bytes of `ts` from position `i` on.
fn encode_functypes_from(ts: &Vec<FuncType>, i: usize, out: &mut Vec<u8>)
    requires
        i <= ts.len(),
    ensures
        final(out)@ == old(out)@ + functypes_bytes(
            ts@.map_values(|t: FuncType| t@).skip(i as int),
        ),
    decreases ts.len() - i,
{
    let ghost tv = ts@.map_values(|t: FuncType| t@);
    if i == ts.len() {
        proof {
            assert(tv.skip(i as int) =~= Seq::<FuncTypeV>::empty());
            assert(out@ =~= old(out)@ + functypes_bytes(Seq::<FuncTypeV>::empty()));
        }
    } else {
        let t = &ts[i];
        out.push(0x60);
        write_uleb(out, t.params.len() as u64);
        encode_valtypes_from(&t.params, 0, out);
        write_uleb(out, t.results.len() as u64);
        encode_valtypes_from(&t.results, 0, out);
        proof {
            assert(t.params@.skip(0) =~= t.params@);
            assert(t.results@.skip(0) =~= t.results@);
            assert(out@ =~= old(out)@ + functype_bytes(tv[i as int]));
        }
        let ghost mid = out@;
        encode_functypes_from(ts, i + 1, out);
        proof {
            let s = tv.skip(i as int);
            assert(s[0] == tv[i as int]);
            assert(s.skip(1) =~= tv.skip(i + 1));
            assert(out@ =~= old(out)@ + functypes_bytes(s));
        }
    }
}

/// Appends the declared type indices of the functions from position `i` on.
fn encode_sigs_from(fs: &Vec<LocalFunction>, i: usize, out: &mut Vec<u8>)
    requires
        i <= fs.len(),
    ensures
        final(out)@ == old(out)@ + sigs_bytes(
            fs@.map_values(|f: LocalFunction| f@).skip(i as int),
        ),
    decreases fs.len() - i,
{
    let ghost fv = fs@.map_values(|f: LocalFunction| f@);
    if i == fs.len() {
        proof {
            assert(fv.skip(i as int) =~= Seq::<FuncV>::empty());
            assert(out@ =~= old(out)@ + sigs_bytes(Seq::<FuncV>::empty()));
        }
    } else {
        write_uleb(out, fs[i].ty.index as u64);
        encode_sigs_from(fs, i + 1, out);
        proof {
            let s = fv.skip(i as int);
            assert(s[0] == fv[i as int]);
            assert(s.skip(1) =~= fv.skip(i + 1));
            assert(out@ =~= old(out)@ + sigs_bytes(s));
        }
    }
}

/// Appends the export records from position `i` on.
fn encode_exports_from(es: &Vec<Export>, i: usize, out: &mut Vec<u8>)
    requires
        i <= es.len(),
    ensures
        final(out)@ == old(out)@ + exports_bytes(es@.map_values(|e: Export| e@).skip(i as int)),
    decreases es.len() - i,
{
    let ghost ev = es@.map_values(|e: Export| e@);
    if i == es.len() {
        proof {
            assert(ev.skip(i as int) =~= Seq::<ExportV>::empty());
            assert(out@ =~= old(out)@ + exports_bytes(Seq::<ExportV>::empty()));
        }
    } else {
        let e = &es[i];
        write_uleb(out, e.name.len() as u64);
        append_bytes(out, &e.name);
        out.push(0x00);
        write_uleb(out, e.item.index as u64);
        proof {
            assert(out@ =~= old(out)@ + export_bytes(ev[i as int]));
        }
        encode_exports_from(es, i + 1, out);
        proof {
            let s = ev.skip(i as int);
            assert(s[0] == ev[i as int]);
            assert(s.skip(1) =~= ev.skip(i + 1));
            assert(out@ =~= old(out)@ + exports_bytes(s));
        }
    }
}

/// Appends the bytes of the subtree rooted at `i`, recording a transform pair
/// at the absolute output position of every instruction that carries an
/// original offset.
fn emit_expr(exprs: &Vec<ExprData>, i: usize, out: &mut Vec<u8>, trans: &mut Vec<(usize, usize)>)
    requires
        exprs_wf(exprs@),
        i < exprs.len(),
    ensures
        final(out)@ == old(out)@ + instrs_bytes(instrs_of(flat_expr(exprs@, i as int))),
        final(trans)@ == old(trans)@ + trans_of(flat_expr(exprs@, i as int), old(out)@.len() as int),
    decreases i,
{
    let node = exprs[i];
    match node.expr {
        Expr::I32Const(v) => {
            match node.offset {
                Some(o) => {
                    trans.push((o, out.len()));
                },
                None => {},
            }
            out.push(0x41);
            write_uleb(out, v as u64);
            proof {
                let fl = flat_expr(exprs@, i as int);
                assert(fl =~= seq![(Instr::I32Const(v), node.offset)]);
                lemma_instrs_bytes_single(Instr::I32Const(v));
                assert(instrs_of(fl) =~= seq![Instr::I32Const(v)]);
                lemma_trans_of_single((Instr::I32Const(v), node.offset), old(out)@.len() as int);
                assert(out@ =~= old(out)@ + instrs_bytes(instrs_of(fl)));
                assert(trans@ =~= old(trans)@ + trans_of(fl, old(out)@.len() as int));
            }
        },
        Expr::Drop(c) => {
            emit_expr(exprs, c.index, out, trans);
            let ghost mid_out = out@;
            let ghost mid_trans = trans@;
            match node.offset {
                Some(o) => {
                    trans.push((o, out.len()));
                },
                None => {},
            }
            out.push(0x1A);
            proof {
                let sub = flat_expr(exprs@, c.index as int);
                let fl = flat_expr(exprs@, i as int);
                assert(fl == sub + seq![(Instr::Drop, node.offset)]);
                lemma_instrs_of_concat(sub, seq![(Instr::Drop, node.offset)]);
                assert(instrs_of(seq![(Instr::Drop, node.offset)]) =~= seq![Instr::Drop]);
                lemma_instrs_bytes_concat(instrs_of(sub), seq![Instr::Drop]);
                lemma_instrs_bytes_single(Instr::Drop);
                assert(out@ =~= old(out)@ + instrs_bytes(instrs_of(fl)));
                lemma_trans_of_concat(sub, seq![(Instr::Drop, node.offset)], old(out)@.len() as int);
                lemma_trans_of_single(
                    (Instr::Drop, node.offset),
                    old(out)@.len() + instrs_bytes(instrs_of(sub)).len() as int,
                );
                assert(mid_out.len() == old(out)@.len() + instrs_bytes(instrs_of(sub)).len());
                assert(trans@ =~= old(trans)@ + trans_of(fl, old(out)@.len() as int));
            }
        },
    }
}

/// Appends the bytes of an entry-block root list from position `k` on.
fn emit_roots(
    f: &LocalFunction,
    k: usize,
    out: &mut Vec<u8>,
    trans: &mut Vec<(usize, usize)>,
)
    requires
        f.wf(),
        k <= f.entry.len(),
    ensures
        final(out)@ == old(out)@ + instrs_bytes(
            instrs_of(flat_list(f.exprs@, f.entry@.skip(k as int))),
        ),
        final(trans)@ == old(trans)@ + trans_of(
            flat_list(f.exprs@, f.entry@.skip(k as int)),
            old(out)@.len() as int,
        ),
    decreases f.entry.len() - k,
{
    if k == f.entry.len() {
        proof {
            assert(f.entry@.skip(k as int) =~= Seq::<ExprId>::empty());
            let fl = flat_list(f.exprs@, Seq::<ExprId>::empty());
            assert(fl =~= Seq::<(Instr, Option<usize>)>::empty());
            assert(instrs_of(fl) =~= Seq::<Instr>::empty());
            assert(out@ =~= old(out)@ + instrs_bytes(instrs_of(fl)));
            assert(trans@ =~= old(trans)@ + trans_of(fl, old(out)@.len() as int));
        }
    } else {
        let e = f.entry[k];
        emit_expr(&f.exprs, e.index, out, trans);
        emit_roots(f, k + 1, out, trans);
        proof {
            let s = f.entry@.skip(k as int);
            assert(s[0] == f.entry@[k as int]);
            assert(s.skip(1) =~= f.entry@.skip(k + 1));
            let sub = flat_expr(f.exprs@, e.index as int);
            let restfl = flat_list(f.exprs@, f.entry@.skip(k + 1));
            assert(flat_list(f.exprs@, s) == sub + restfl);
            lemma_instrs_of_concat(sub, restfl);
            lemma_instrs_bytes_concat(instrs_of(sub), instrs_of(restfl));
            assert(out@ =~= old(out)@ + instrs_bytes(instrs_of(flat_list(f.exprs@, s))));
            lemma_trans_of_concat(sub, restfl, old(out)@.len() as int);
            assert(trans@ =~= old(trans)@ + trans_of(flat_list(f.exprs@, s), old(out)@.len() as int));
        }
    }
}

/// Where the instruction bytes of one framed body start, relative to the
/// body's first byte.
pub open spec fn body_instr_off(f: LocalFunction) -> int {
    uleb(body_payload(f@).len()).len() + uleb(f@.locals.len()).len() + valtypes_bytes(
        f@.locals,
    ).len() as int
}

/// The transform pairs produced by re-encoding all bodies starting at output
/// position `base`.
pub open spec fn bodies_trans(fs: Seq<LocalFunction>, base: int) -> Seq<(usize, usize)>
    decreases fs.len(),
{
    if fs.len() == 0 {
        Seq::empty()
    } else {
        trans_of(fs[0].flat(), base + body_instr_off(fs[0])) + bodies_trans(
            fs.skip(1),
            base + body_bytes(fs[0]@).len(),
        )
    }
}

/// The recorded pairs of a whole code section carry exactly the module's
/// original offsets as inputs, and in-range, non-decreasing outputs.
pub proof fn lemma_bodies_trans_props(fs: Seq<LocalFunction>, base: int)
    requires
        0 <= base,
        base + bodies_bytes(fs.map_values(|f: LocalFunction| f@)).len() <= usize::MAX,
    ensures
        firsts(bodies_trans(fs, base)) == all_offs(fs),
        forall|k: int|
            0 <= k < bodies_trans(fs, base).len() ==> base <= (#[trigger] bodies_trans(
                fs,
                base,
            )[k]).1 && bodies_trans(fs, base)[k].1 < base + bodies_bytes(
                fs.map_values(|f: LocalFunction| f@),
            ).len(),
        forall|k: int, l: int|
            0 <= k <= l < bodies_trans(fs, base).len() ==> (#[trigger] bodies_trans(
                fs,
                base,
            )[k]).1 <= (#[trigger] bodies_trans(fs, base)[l]).1,
    decreases fs.len(),
{
    let fv = fs.map_values(|f: LocalFunction| f@);
    if fs.len() == 0 {
        assert(firsts(bodies_trans(fs, base)) =~= all_offs(fs));
    } else {
        let f = fs[0];
        let inner = base + body_instr_off(f);
        assert(fv[0] == f@);
        assert(fv.skip(1) =~= fs.skip(1).map_values(|g: LocalFunction| g@));
        assert(bodies_bytes(fv) == body_bytes(f@) + bodies_bytes(fv.skip(1))) by {
            assert(bodies_bytes(fv) =~= body_bytes(fv[0]) + bodies_bytes(fv.skip(1)));
        }
        assert(f@.body == instrs_of(f.flat()));
        assert(body_bytes(f@).len() == body_instr_off(f) + instrs_bytes(instrs_of(f.flat())).len()
            + 1);
        assert(inner + instrs_bytes(instrs_of(f.flat())).len() < base + body_bytes(f@).len());
        lemma_trans_of_props(f.flat(), inner);
        lemma_bodies_trans_props(fs.skip(1), base + body_bytes(f@).len());
        assert(all_offs(fs) == f.in_offsets() + all_offs(fs.skip(1)));
        assert(firsts(bodies_trans(fs, base)) =~= all_offs(fs));
    }
}

/// Appends the framed code bodies from position `i` on, recording transform
/// pairs at absolute output positions.
fn encode_bodies_from(
    fs: &Vec<LocalFunction>,
    i: usize,
    out: &mut Vec<u8>,
    trans: &mut Vec<(usize, usize)>,
)
    requires
        i <= fs.len(),
        forall|j: int| 0 <= j < fs@.len() ==> (#[trigger] fs@[j]).wf(),
    ensures
        final(out)@ == old(out)@ + bodies_bytes(
            fs@.map_values(|f: LocalFunction| f@).skip(i as int),
        ),
        final(trans)@ == old(trans)@ + bodies_trans(fs@.skip(i as int), old(out)@.len() as int),
    decreases fs.len() - i,
{
    let ghost fv = fs@.map_values(|f: LocalFunction| f@);
    if i == fs.len() {
        proof {
            assert(fv.skip(i as int) =~= Seq::<FuncV>::empty());
            assert(fs@.skip(i as int) =~= Seq::<LocalFunction>::empty());
            assert(out@ =~= old(out)@ + bodies_bytes(Seq::<FuncV>::empty()));
            assert(trans@ =~= old(trans)@ + bodies_trans(
                Seq::<LocalFunction>::empty(),
                old(out)@.len() as int,
            ));
        }
    } else {
        let f = &fs[i];
        // First pass: the body payload alone, to learn its framed size.
        let mut p: Vec<u8> = Vec::new();
        let mut scratch: Vec<(usize, usize)> = Vec::new();
        write_uleb(&mut p, f.locals.len() as u64);
        encode_valtypes_from(&f.locals, 0, &mut p);
        emit_roots(f, 0, &mut p, &mut scratch);
        p.push(0x0B);
        proof {
            assert(f.locals@.skip(0) =~= f.locals@);
            assert(f.entry@.skip(0) =~= f.entry@);
            assert(fv[i as int] == fs@[i as int]@);
            assert(p@ =~= body_payload(fv[i as int]));
        }
        // Second pass: the framed size, then the payload again, recording the
        // transform at its real output positions.
        write_uleb(out, p.len() as u64);
        write_uleb(out, f.locals.len() as u64);
        encode_valtypes_from(&f.locals, 0, out);
        let ghost pre_instrs = out@;
        emit_roots(f, 0, out, trans);
        out.push(0x0B);
        proof {
            assert(f.locals@.skip(0) =~= f.locals@);
            assert(f.entry@.skip(0) =~= f.entry@);
            assert(out@ =~= old(out)@ + body_bytes(fv[i as int]));
            assert(pre_instrs.len() as int == old(out)@.len() + body_instr_off(fs@[i as int]));
            assert(trans@ =~= old(trans)@ + trans_of(
                fs@[i as int].flat(),
                old(out)@.len() + body_instr_off(fs@[i as int]),
            ));
        }
        let ghost mid_out = out@;
        let ghost mid_trans = trans@;
        encode_bodies_from(fs, i + 1, out, trans);
        proof {
            let s = fv.skip(i as int);
            assert(s[0] == fv[i as int]);
            assert(s.skip(1) =~= fv.skip(i + 1));
            assert(out@ =~= old(out)@ + bodies_bytes(s));
            let t = fs@.skip(i as int);
            assert(t[0] == fs@[i as int]);
            assert(t.skip(1) =~= fs@.skip(i + 1));
            assert(mid_out.len() as int == old(out)@.len() + body_bytes(fv[i as int]).len());
            assert(trans@ =~= old(trans)@ + bodies_trans(t, old(out)@.len() as int));
        }
    }
}

/// Appends the custom sections of the registry from position `i` on.
fn encode_customs_from(cs: &Vec<CustomEntry>, i: usize, out: &mut Vec<u8>)
    requires
        i <= cs.len(),
    ensures
        final(out)@ == old(out)@ + customs_bytes(
            crate::customs::sections_of(cs@.map_values(|e: CustomEntry| e@)).skip(i as int),
        ),
    decreases cs.len() - i,
{
    let ghost cv = crate::customs::sections_of(cs@.map_values(|e: CustomEntry| e@));
    if i == cs.len() {
        proof {
            assert(cv.skip(i as int) =~= Seq::<CustomV>::empty());
            assert(out@ =~= old(out)@ + customs_bytes(Seq::<CustomV>::empty()));
        }
    } else {
        let e = &cs[i];
        let mut p: Vec<u8> = Vec::new();
        write_uleb(&mut p, e.section.name.len() as u64);
        append_bytes(&mut p, &e.section.name);
        append_bytes(&mut p, &e.section.data);
        out.push(0x00);
        write_uleb(out, p.len() as u64);
        append_bytes(out, &p);
        proof {
            assert(cv[i as int] == cs@[i as int]@.section);
            assert(p@ =~= uleb(cv[i as int].name.len()) + cv[i as int].name + cv[i as int].data);
            assert(out@ =~= old(out)@ + custom_bytes(cv[i as int]));
        }
        encode_customs_from(cs, i + 1, out);
        proof {
            let s = cv.skip(i as int);
            assert(s[0] == cv[i as int]);
            assert(s.skip(1) =~= cv.skip(i + 1));
            assert(out@ =~= old(out)@ + customs_bytes(s));
        }
    }
}

/// The producers name as a byte vector.
fn producers_name_vec() -> (r: Vec<u8>)
    ensures
        r@ == producers_name(),
{
    let mut v: Vec<u8> = Vec::new();
    v.push(0x70);
    v.push(0x72);
    v.push(0x6F);
    v.push(0x64);
    v.push(0x75);
    v.push(0x63);
    v.push(0x65);
    v.push(0x72);
    v.push(0x73);
    proof {
        assert(v@ =~= producers_name());
    }
    v
}

/// Whether the registry already holds a section named as the producers one.
fn has_producers(cs: &Vec<CustomEntry>) -> (r: bool)
    ensures
        r == has_custom_named(
            crate::customs::sections_of(cs@.map_values(|e: CustomEntry| e@)),
            producers_name(),
        ),
{
    let ghost cv = crate::customs::sections_of(cs@.map_values(|e: CustomEntry| e@));
    let name = producers_name_vec();
    let mut i: usize = 0;
    while i < cs.len()
        invariant
            i <= cs.len(),
            name@ == producers_name(),
            cv == crate::customs::sections_of(cs@.map_values(|e: CustomEntry| e@)),
            cv.len() == cs@.len(),
            forall|j: int| 0 <= j < cv.len() ==> #[trigger] cv[j] == cs@[j]@.section,
            forall|j: int| 0 <= j < i as int ==> (#[trigger] cv[j]).name != producers_name(),
        decreases cs.len() - i,
    {
        if crate::customs::bytes_eq(&cs[i].section.name, &name) {
            proof {
                assert(cv[i as int].name == producers_name());
            }
            return true;
        }
        i = i + 1;
    }
    proof {
        if has_custom_named(cv, producers_name()) {
            let w = choose|w: int| 0 <= w < cv.len() && (#[trigger] cv[w]).name
                == producers_name();
            assert(false);
        }
    }
    false
}

/// Custom-section bytes of an appended entry.
pub proof fn lemma_customs_bytes_push(cs: Seq<CustomV>, c: CustomV)
    ensures
        customs_bytes(cs.push(c)) == customs_bytes(cs) + custom_bytes(c),
    decreases cs.len(),
{
    if cs.len() == 0 {
        assert(cs.push(c)[0] == c);
        assert(cs.push(c).skip(1) =~= Seq::<CustomV>::empty());
        assert(customs_bytes(Seq::<CustomV>::empty()) =~= Seq::<u8>::empty());
        assert(customs_bytes(cs.push(c)) =~= customs_bytes(cs) + custom_bytes(c));
    } else {
        assert(cs.push(c)[0] == cs[0]);
        assert(cs.push(c).skip(1) =~= cs.skip(1).push(c));
        lemma_customs_bytes_push(cs.skip(1), c);
        assert(customs_bytes(cs.push(c)) =~= customs_bytes(cs) + custom_bytes(c));
    }
}

/// Appends the framed type section of `types`.
fn encode_type_sec(types: &ModuleTypes, out: &mut Vec<u8>)
    ensures
        final(out)@ == old(out)@ + type_section(types@),
{
    if types.list.len() > 0 {
        let mut p: Vec<u8> = Vec::new();
        write_uleb(&mut p, types.list.len() as u64);
        encode_functypes_from(&types.list, 0, &mut p);
        proof {
            assert(types@.skip(0) =~= types@);
            assert(p@ =~= uleb(types@.len()) + functypes_bytes(types@));
        }
        out.push(1);
        write_uleb(out, p.len() as u64);
        append_bytes(out, &p);
        proof {
            assert(out@ =~= old(out)@ + type_section(types@));
        }
    } else {
        proof {
            assert(type_section(types@) =~= Seq::<u8>::empty());
            assert(out@ =~= old(out)@ + type_section(types@));
        }
    }
}

/// Appends the framed function section of `funcs`.
fn encode_func_sec(funcs: &ModuleFunctions, out: &mut Vec<u8>)
    ensures
        final(out)@ == old(out)@ + func_section(funcs@),
{
    if funcs.list.len() > 0 {
        let mut p: Vec<u8> = Vec::new();
        write_uleb(&mut p, funcs.list.len() as u64);
        encode_sigs_from(&funcs.list, 0, &mut p);
        proof {
            assert(funcs@.skip(0) =~= funcs@);
            assert(p@ =~= uleb(funcs@.len()) + sigs_bytes(funcs@));
        }
        out.push(3);
        write_uleb(out, p.len() as u64);
        append_bytes(out, &p);
        proof {
            assert(out@ =~= old(out)@ + func_section(funcs@));
        }
    } else {
        proof {
            assert(func_section(funcs@) =~= Seq::<u8>::empty());
            assert(out@ =~= old(out)@ + func_section(funcs@));
        }
    }
}

/// Appends the framed export section of `exports`.
fn encode_export_sec(exports: &ModuleExports, out: &mut Vec<u8>)
    ensures
        final(out)@ == old(out)@ + export_section(exports@),
{
    if exports.list.len() > 0 {
        let mut p: Vec<u8> = Vec::new();
        write_uleb(&mut p, exports.list.len() as u64);
        encode_exports_from(&exports.list, 0, &mut p);
        proof {
            assert(exports@.skip(0) =~= exports@);
            assert(p@ =~= uleb(exports@.len()) + exports_bytes(exports@));
        }
        out.push(7);
        write_uleb(out, p.len() as u64);
        append_bytes(out, &p);
        proof {
            assert(out@ =~= old(out)@ + export_section(exports@));
        }
    } else {
        proof {
            assert(export_section(exports@) =~= Seq::<u8>::empty());
            assert(out@ =~= old(out)@ + export_section(exports@));
        }
    }
}

/// Appends the stored custom sections and, when the configuration asks for
/// one and none is present, a producers entry.
fn encode_customs_tail(customs: &ModuleCustomSections, cfg: &ModuleConfig, out: &mut Vec<u8>)
    ensures
        final(out)@ == old(out)@ + customs_bytes(
            emitted_customs(crate::customs::sections_of(customs@), *cfg),
        ),
{
    let ghost cv = crate::customs::sections_of(customs@);
    encode_customs_from(&customs.list, 0, out);
    proof {
        assert(cv.skip(0) =~= cv);
        assert(out@ =~= old(out)@ + customs_bytes(cv));
    }
    let has = has_producers(&customs.list);
    if !cfg.skip_producers_section && !(has) {
        let name = producers_name_vec();
        let mut data: Vec<u8> = Vec::new();
        data.push(0x77);
        data.push(0x61);
        data.push(0x6C);
        data.push(0x72);
        data.push(0x75);
        data.push(0x73);
        proof {
            assert(data@ =~= producers_data());
        }
        let mut p: Vec<u8> = Vec::new();
        write_uleb(&mut p, name.len() as u64);
        append_bytes(&mut p, &name);
        append_bytes(&mut p, &data);
        out.push(0x00);
        write_uleb(out, p.len() as u64);
        append_bytes(out, &p);
        proof {
            let c = CustomV { name: producers_name(), data: producers_data() };
            assert(p@ =~= uleb(c.name.len()) + c.name + c.data);
            lemma_customs_bytes_push(cv, c);
            assert(out@ =~= old(out)@ + customs_bytes(emitted_customs(cv, *cfg)));
        }
    } else {
        proof {
            assert(emitted_customs(cv, *cfg) == cv);
        }
    }
}

/// Serializes `m` to bytes under its configuration, recording and delivering
/// the code transform when asked to.
#[verifier::rlimit(100)]
pub(crate) fn encode_module(m: &mut Module) -> (r: Vec<u8>)
    requires
        old(m).wf(),
        old(m).customs.hooks_headroom(),
    ensures
        final(m).wf(),
        r@ == emit_spec(old(m)@, old(m).config),
        final(m)@ == old(m)@,
        final(m).config == old(m).config,
        final(m).types == old(m).types,
        final(m).funcs == old(m).funcs,
        final(m).exports == old(m).exports,
        emit_hooks_run(*old(m), old(m).config) ==> {
            &&& final(m).customs@.len() == old(m).customs@.len()
            &&& forall|i: int|
                0 <= i < old(m).customs@.len() ==> {
                    &&& (#[trigger] final(m).customs@[i]).id == old(m).customs@[i].id
                    &&& final(m).customs@[i].section == old(m).customs@[i].section
                    &&& final(m).customs@[i].hook_runs == old(m).customs@[i].hook_runs + 1
                    &&& final(m).customs@[i].last_transform matches Some(t) && t.len() > 0
                        && pairs_sorted(t) && firsts(t) == all_offs(old(m).funcs.list@)
                }
        },
        !emit_hooks_run(*old(m), old(m).config) ==> final(m).customs == old(m).customs,
{
    let ghost mv = old(m)@;
    let ghost cfg = old(m).config;
    let mut out: Vec<u8> = Vec::new();
    out.push(0x00);
    out.push(0x61);
    out.push(0x73);
    out.push(0x6D);
    out.push(0x01);
    out.push(0x00);
    out.push(0x00);
    out.push(0x00);
    proof {
        assert(out@ =~= header());
    }
    encode_type_sec(&m.types, &mut out);
    encode_func_sec(&m.funcs, &mut out);
    encode_export_sec(&m.exports, &mut out);
    proof {
        assert(out@ =~= header() + type_section(mv.types) + func_section(mv.funcs)
            + export_section(mv.exports));
    }
    let ghost pre_code = out@;
    // Code section, tracking the transform at absolute output positions.
    let mut trans: Vec<(usize, usize)> = Vec::new();
    if m.funcs.list.len() > 0 {
        let mut p: Vec<u8> = Vec::new();
        let mut scratch: Vec<(usize, usize)> = Vec::new();
        write_uleb(&mut p, m.funcs.list.len() as u64);
        encode_bodies_from(&m.funcs.list, 0, &mut p, &mut scratch);
        proof {
            assert(m.funcs.list@.skip(0) =~= m.funcs.list@);
            assert(m.funcs@.skip(0) =~= m.funcs@);
            assert(p@ =~= uleb(mv.funcs.len()) + bodies_bytes(mv.funcs));
        }
        out.push(10);
        write_uleb(&mut out, p.len() as u64);
        let ghost base = out@.len() as int;
        write_uleb(&mut out, m.funcs.list.len() as u64);
        encode_bodies_from(&m.funcs.list, 0, &mut out, &mut trans);
        let out_len_now = out.len();
        proof {
            assert(out@.len() == out_len_now);
            assert(m.funcs.list@.skip(0) =~= m.funcs.list@);
            assert(m.funcs@.skip(0) =~= m.funcs@);
            assert(out@ =~= pre_code + code_section(mv.funcs));
            let tbase = base + uleb(mv.funcs.len()).len();
            assert(trans@ == bodies_trans(m.funcs.list@, tbase));
            assert(tbase + bodies_bytes(mv.funcs).len() <= out@.len());
            assert(out@.len() <= usize::MAX);
            lemma_bodies_trans_props(m.funcs.list@, tbase);
            assert(firsts(trans@) == all_offs(m.funcs.list@));
            assert(trans@.len() == all_offs(m.funcs.list@).len());
            assert(pairs_sorted(trans@)) by {
                assert(forall|k: int, l: int|
                    0 <= k <= l < trans@.len() ==> (#[trigger] trans@[k]).0 <= (
                    #[trigger] trans@[l]).0) by {
                    assert(forall|k: int|
                        0 <= k < trans@.len() ==> (#[trigger] trans@[k]).0 == firsts(trans@)[k]);
                }
            }
        }
    } else {
        proof {
            assert(all_offs(m.funcs.list@) =~= Seq::<usize>::empty());
            assert(out@ =~= pre_code + code_section(mv.funcs));
            assert(trans@.len() == all_offs(m.funcs.list@).len());
            assert(pairs_sorted(trans@));
            assert(firsts(trans@) =~= all_offs(m.funcs.list@));
        }
    }
    let ghost pre_customs = out@;
    // Custom sections, then a producers entry when asked for and absent.
    encode_customs_tail(&m.customs, &m.config, &mut out);
    proof {
        assert(out@ =~= emit_spec(mv, cfg));
    }
    // Deliver the transform to every hook, exactly once per entry.
    if m.config.preserve_code_transform && trans.len() > 0 {
        let t = CodeTransform { entries: trans };
        m.customs.deliver_transform(&t);
        proof {
            assert(crate::customs::sections_of(m.customs@) =~= crate::customs::sections_of(
                old(m).customs@,
            ));
            assert(final(m)@ == old(m)@);
        }
    } else {
        proof {
            assert(final(m)@ == old(m)@);
        }
    }
    out
}

// ---------------------------------------------------------------------------
// Executable decoder
// ---------------------------------------------------------------------------

/// Non-decreasing sequences concatenate to a non-decreasing sequence when
/// split by a bound.
pub proof fn lemma_sorted_concat(a: Seq<usize>, b: Seq<usize>, k: int)
    requires
        sorted(a),
        sorted(b),
        forall|i: int| 0 <= i < a.len() ==> (#[trigger] a[i]) < k,
        forall|j: int| 0 <= j < b.len() ==> k <= (#[trigger] b[j]),
    ensures
        sorted(a + b),
{
    assert forall|i: int, j: int| 0 <= i <= j < (a + b).len() implies (a + b)[i] <= (a + b)[j] by {
        if j < a.len() {
        } else if i >= a.len() {
        } else {
            assert((a + b)[i] == a[i]);
            assert((a + b)[j] == b[j - a.len()]);
        }
    }
}

/// A content-equal copy of `data[start..end]`.
fn subrange_vec(data: &Vec<u8>, start: usize, end: usize) -> (r: Vec<u8>)
    requires
        start <= end <= data.len(),
    ensures
        r@ == data@.subrange(start as int, end as int),
{
    let mut out: Vec<u8> = Vec::new();
    let mut i: usize = start;
    while i < end
        invariant
            start <= i <= end <= data.len(),
            out@ =~= data@.subrange(start as int, i as int),
        decreases end - i,
    {
        out.push(data[i]);
        proof {
            assert(data@.subrange(start as int, i + 1) =~= data@.subrange(
                start as int,
                i as int,
            ).push(data@[i as int]));
        }
        i = i + 1;
    }
    out
}

/// Reads the frame of the section starting at `pos`: a copy of its payload,
/// the payload's absolute start, and the position after the section.
fn read_section(data: &Vec<u8>, pos: usize) -> (r: Result<(Vec<u8>, usize, usize), Error>)
    requires
        pos < data.len(),
    ensures
        match r {
            Ok((p, st, np)) => {
                &&& frame_section(data@.skip(pos as int)) == Some((p@, data@.skip(np as int)))
                &&& pos < st <= np <= data.len()
                &&& st + p@.len() == np
            },
            Err(e) => frame_section(data@.skip(pos as int)) is None,
        },
{
    let ghost s = data@.skip(pos as int);
    proof {
        assert(s.skip(1) =~= data@.skip(pos + 1));
    }
    match read_uleb64(data, pos + 1) {
        Ok((size, q)) => {
            if size <= (data.len() - q) as u64 {
                let end = q + size as usize;
                let payload = subrange_vec(data, q, end);
                proof {
                    assert(data@.skip(q as int).take(size as int) =~= data@.subrange(
                        q as int,
                        end as int,
                    ));
                    assert(data@.skip(q as int).skip(size as int) =~= data@.skip(end as int));
                }
                Ok((payload, q, end))
            } else {
                Err(Error::at(ErrorKind::SectionSizeMismatch, pos))
            }
        },
        Err(e) => Err(e),
    }
}

/// Reads one value type byte.
fn read_valtype(p: &Vec<u8>, pos: usize, cfg: &ModuleConfig) -> (r: Result<(ValType, usize), Error>)
    requires
        pos <= p.len(),
    ensures
        match r {
            Ok((t, np)) => parse_valtype(p@.skip(pos as int), *cfg) == Some(
                (t, p@.skip(np as int)),
            ) && pos < np <= p.len(),
            Err(e) => parse_valtype(p@.skip(pos as int), *cfg) is None,
        },
{
    let ghost s = p@.skip(pos as int);
    if pos == p.len() {
        return Err(Error::at(ErrorKind::UnexpectedEof, pos));
    }
    proof {
        assert(s[0] == p@[pos as int]);
        assert(s.skip(1) =~= p@.skip(pos + 1));
    }
    let b = p[pos];
    if b == 0x7F {
        Ok((ValType::I32, pos + 1))
    } else if b == 0x7E {
        Ok((ValType::I64, pos + 1))
    } else if b == 0x7D {
        Ok((ValType::F32, pos + 1))
    } else if b == 0x7C {
        Ok((ValType::F64, pos + 1))
    } else if b == 0x7B && !cfg.only_stable_features {
        Ok((ValType::V128, pos + 1))
    } else {
        Err(Error::at(ErrorKind::BadValType, pos))
    }
}

/// Reads exactly `n` value types.
fn read_valtypes(p: &Vec<u8>, pos: usize, n: u64, cfg: &ModuleConfig) -> (r: Result<
    (Vec<ValType>, usize),
    Error,
>)
    requires
        pos <= p.len(),
    ensures
        match r {
            Ok((ts, np)) => parse_valtypes(p@.skip(pos as int), n as nat, *cfg) == Some(
                (ts@, p@.skip(np as int)),
            ) && pos <= np <= p.len(),
            Err(e) => parse_valtypes(p@.skip(pos as int), n as nat, *cfg) is None,
        },
    decreases n,
{
    if n == 0 {
        let ts: Vec<ValType> = Vec::new();
        proof {
            assert(ts@ =~= Seq::<ValType>::empty());
        }
        Ok((ts, pos))
    } else {
        match read_valtype(p, pos, cfg) {
            Ok((t, q)) => match read_valtypes(p, q, n - 1, cfg) {
                Ok((mut ts, np)) => {
                    ts.insert(0, t);
                    proof {
                        assert(ts@ =~= seq![t] + ts@.skip(1));
                        assert(ts@.skip(1) =~= ts@.subrange(1, ts@.len() as int));
                    }
                    Ok((ts, np))
                },
                Err(e) => Err(e),
            },
            Err(e) => Err(e),
        }
    }
}

/// Reads one function type.
fn read_functype(p: &Vec<u8>, pos: usize, cfg: &ModuleConfig) -> (r: Result<
    (FuncType, usize),
    Error,
>)
    requires
        pos <= p.len(),
    ensures
        match r {
            Ok((t, np)) => parse_functype(p@.skip(pos as int), *cfg) == Some(
                (t@, p@.skip(np as int)),
            ) && pos < np <= p.len(),
            Err(e) => parse_functype(p@.skip(pos as int), *cfg) is None,
        },
{
    let ghost s = p@.skip(pos as int);
    if pos == p.len() {
        return Err(Error::at(ErrorKind::UnexpectedEof, pos));
    }
    proof {
        assert(s[0] == p@[pos as int]);
        assert(s.skip(1) =~= p@.skip(pos + 1));
    }
    if p[pos] != 0x60 {
        return Err(Error::at(ErrorKind::BadValType, pos));
    }
    let (np_count, q1) = match read_uleb64(p, pos + 1) {
        Ok(v) => v,
        Err(e) => {
            return Err(e);
        },
    };
    let (params, q2) = match read_valtypes(p, q1, np_count, cfg) {
        Ok(v) => v,
        Err(e) => {
            return Err(e);
        },
    };
    let (nr_count, q3) = match read_uleb64(p, q2) {
        Ok(v) => v,
        Err(e) => {
            return Err(e);
        },
    };
    let (results, q4) = match read_valtypes(p, q3, nr_count, cfg) {
        Ok(v) => v,
        Err(e) => {
            return Err(e);
        },
    };
    Ok((FuncType { params, results }, q4))
}

/// Reads exactly `n` function types.
fn read_functypes(p: &Vec<u8>, pos: usize, n: u64, cfg: &ModuleConfig) -> (r: Result<
    (Vec<FuncType>, usize),
    Error,
>)
    requires
        pos <= p.len(),
    ensures
        match r {
            Ok((ts, np)) => parse_functypes(p@.skip(pos as int), n as nat, *cfg) == Some(
                (ts@.map_values(|t: FuncType| t@), p@.skip(np as int)),
            ) && pos <= np <= p.len(),
            Err(e) => parse_functypes(p@.skip(pos as int), n as nat, *cfg) is None,
        },
    decreases n,
{
    if n == 0 {
        let ts: Vec<FuncType> = Vec::new();
        proof {
            assert(ts@.map_values(|t: FuncType| t@) =~= Seq::<FuncTypeV>::empty());
        }
        Ok((ts, pos))
    } else {
        match read_functype(p, pos, cfg) {
            Ok((t, q)) => {
                let ghost tv = t@;
                match read_functypes(p, q, n - 1, cfg) {
                    Ok((mut ts, np)) => {
                        let ghost tail = ts@.map_values(|t: FuncType| t@);
                        ts.insert(0, t);
                        proof {
                            assert(ts@.map_values(|t: FuncType| t@) =~= seq![tv] + tail);
                        }
                        Ok((ts, np))
                    },
                    Err(e) => Err(e),
                }
            },
            Err(e) => Err(e),
        }
    }
}

/// Parses the whole type-section payload.
fn read_type_payload(p: &Vec<u8>, cfg: &ModuleConfig) -> (r: Result<Vec<FuncType>, Error>)
    ensures
        match r {
            Ok(ts) => parse_type_payload(p@, *cfg) == Some(ts@.map_values(|t: FuncType| t@)),
            Err(e) => parse_type_payload(p@, *cfg) is None,
        },
{
    proof {
        assert(p@.skip(0) =~= p@);
    }
    let (n, q) = match read_uleb64(p, 0) {
        Ok(v) => v,
        Err(e) => {
            return Err(e);
        },
    };
    let (ts, np) = match read_functypes(p, q, n, cfg) {
        Ok(v) => v,
        Err(e) => {
            return Err(e);
        },
    };
    if np != p.len() {
        proof {
            assert(p@.skip(np as int).len() != 0);
        }
        return Err(Error::at(ErrorKind::SectionSizeMismatch, np));
    }
    proof {
        assert(p@.skip(np as int).len() == 0);
    }
    Ok(ts)
}

/// Reads exactly `n` declared type indices, each below `ntypes`.
fn read_sigs(p: &Vec<u8>, pos: usize, n: u64, ntypes: usize) -> (r: Result<
    (Vec<TypeId>, usize),
    Error,
>)
    requires
        pos <= p.len(),
    ensures
        match r {
            Ok((ts, np)) => parse_sigs(p@.skip(pos as int), n as nat, ntypes as nat) == Some(
                (ts@.map_values(|t: TypeId| t.index as int), p@.skip(np as int)),
            ) && pos <= np <= p.len() && (forall|j: int|
                0 <= j < ts@.len() ==> (#[trigger] ts@[j]).index < ntypes),
            Err(e) => parse_sigs(p@.skip(pos as int), n as nat, ntypes as nat) is None,
        },
    decreases n,
{
    if n == 0 {
        let ts: Vec<TypeId> = Vec::new();
        proof {
            assert(ts@.map_values(|t: TypeId| t.index as int) =~= Seq::<int>::empty());
        }
        Ok((ts, pos))
    } else {
        let (v, q) = match read_uleb64(p, pos) {
            Ok(v) => v,
            Err(e) => {
                return Err(e);
            },
        };
        if v >= ntypes as u64 {
            return Err(Error::at(ErrorKind::IndexOutOfRange, pos));
        }
        let id = TypeId { index: v as usize };
        match read_sigs(p, q, n - 1, ntypes) {
            Ok((mut ts, np)) => {
                let ghost tail = ts@.map_values(|t: TypeId| t.index as int);
                ts.insert(0, id);
                proof {
                    assert(ts@.map_values(|t: TypeId| t.index as int) =~= seq![v as int] + tail);
                }
                Ok((ts, np))
            },
            Err(e) => Err(e),
        }
    }
}

/// Parses the whole function-section payload.
fn read_sigs_payload(p: &Vec<u8>, ntypes: usize) -> (r: Result<Vec<TypeId>, Error>)
    ensures
        match r {
            Ok(ts) => parse_sigs_payload(p@, ntypes as nat) == Some(
                ts@.map_values(|t: TypeId| t.index as int),
            ) && (forall|j: int| 0 <= j < ts@.len() ==> (#[trigger] ts@[j]).index < ntypes),
            Err(e) => parse_sigs_payload(p@, ntypes as nat) is None,
        },
{
    proof {
        assert(p@.skip(0) =~= p@);
    }
    let (n, q) = match read_uleb64(p, 0) {
        Ok(v) => v,
        Err(e) => {
            return Err(e);
        },
    };
    let (ts, np) = match read_sigs(p, q, n, ntypes) {
        Ok(v) => v,
        Err(e) => {
            return Err(e);
        },
    };
    if np != p.len() {
        proof {
            assert(p@.skip(np as int).len() != 0);
        }
        return Err(Error::at(ErrorKind::SectionSizeMismatch, np));
    }
    proof {
        assert(p@.skip(np as int).len() == 0);
    }
    Ok(ts)
}

/// Reads one export record, its function index below `nfuncs`.
fn read_export(p: &Vec<u8>, pos: usize, nfuncs: usize) -> (r: Result<(Export, usize), Error>)
    requires
        pos <= p.len(),
    ensures
        match r {
            Ok((e, np)) => parse_export(p@.skip(pos as int), nfuncs as nat) == Some(
                (e@, p@.skip(np as int)),
            ) && pos <= np <= p.len() && e.item.index < nfuncs,
            Err(e) => parse_export(p@.skip(pos as int), nfuncs as nat) is None,
        },
{
    let ghost s = p@.skip(pos as int);
    let (nlen, q1) = match read_uleb64(p, pos) {
        Ok(v) => v,
        Err(e) => {
            return Err(e);
        },
    };
    if nlen > (p.len() - q1) as u64 {
        return Err(Error::at(ErrorKind::UnexpectedEof, q1));
    }
    let name_end = q1 + nlen as usize;
    let name = subrange_vec(p, q1, name_end);
    proof {
        assert(p@.skip(q1 as int).take(nlen as int) =~= p@.subrange(q1 as int, name_end as int));
        assert(p@.skip(q1 as int).skip(nlen as int) =~= p@.skip(name_end as int));
    }
    let ghost r2 = p@.skip(name_end as int);
    if name_end == p.len() {
        return Err(Error::at(ErrorKind::UnexpectedEof, name_end));
    }
    proof {
        assert(r2[0] == p@[name_end as int]);
        assert(r2.skip(1) =~= p@.skip(name_end + 1));
    }
    if p[name_end] != 0x00 {
        return Err(Error::at(ErrorKind::BadOpcode, name_end));
    }
    let (idx, q3) = match read_uleb64(p, name_end + 1) {
        Ok(v) => v,
        Err(e) => {
            return Err(e);
        },
    };
    if idx >= nfuncs as u64 {
        return Err(Error::at(ErrorKind::IndexOutOfRange, name_end));
    }
    Ok((Export { name, item: crate::ir::FunctionId { index: idx as usize } }, q3))
}

/// Reads exactly `n` exports.
fn read_exports(p: &Vec<u8>, pos: usize, n: u64, nfuncs: usize) -> (r: Result<
    (Vec<Export>, usize),
    Error,
>)
    requires
        pos <= p.len(),
    ensures
        match r {
            Ok((es, np)) => parse_exports(p@.skip(pos as int), n as nat, nfuncs as nat) == Some(
                (es@.map_values(|e: Export| e@), p@.skip(np as int)),
            ) && pos <= np <= p.len() && (forall|j: int|
                0 <= j < es@.len() ==> (#[trigger] es@[j]).item.index < nfuncs),
            Err(e) => parse_exports(p@.skip(pos as int), n as nat, nfuncs as nat) is None,
        },
    decreases n,
{
    if n == 0 {
        let es: Vec<Export> = Vec::new();
        proof {
            assert(es@.map_values(|e: Export| e@) =~= Seq::<ExportV>::empty());
        }
        Ok((es, pos))
    } else {
        match read_export(p, pos, nfuncs) {
            Ok((e, q)) => {
                let ghost ev = e@;
                match read_exports(p, q, n - 1, nfuncs) {
                    Ok((mut es, np)) => {
                        let ghost tail = es@.map_values(|x: Export| x@);
                        es.insert(0, e);
                        proof {
                            assert(es@.map_values(|x: Export| x@) =~= seq![ev] + tail);
                        }
                        Ok((es, np))
                    },
                    Err(e2) => Err(e2),
                }
            },
            Err(e) => Err(e),
        }
    }
}

/// Parses the whole export-section payload.
fn read_exports_payload(p: &Vec<u8>, nfuncs: usize) -> (r: Result<Vec<Export>, Error>)
    ensures
        match r {
            Ok(es) => parse_exports_payload(p@, nfuncs as nat) == Some(
                es@.map_values(|e: Export| e@),
            ) && (forall|j: int| 0 <= j < es@.len() ==> (#[trigger] es@[j]).item.index < nfuncs),
            Err(e) => parse_exports_payload(p@, nfuncs as nat) is None,
        },
{
    proof {
        assert(p@.skip(0) =~= p@);
    }
    let (n, q) = match read_uleb64(p, 0) {
        Ok(v) => v,
        Err(e) => {
            return Err(e);
        },
    };
    let (es, np) = match read_exports(p, q, n, nfuncs) {
        Ok(v) => v,
        Err(e) => {
            return Err(e);
        },
    };
    if np != p.len() {
        proof {
            assert(p@.skip(np as int).len() != 0);
        }
        return Err(Error::at(ErrorKind::SectionSizeMismatch, np));
    }
    proof {
        assert(p@.skip(np as int).len() == 0);
    }
    Ok(es)
}

/// Reads the canonical instruction stream from `q` on, growing the expression
/// arena and the root list exactly as the stream dictates: a constant becomes
/// a fresh producing root, a discard wraps the root the previous instruction
/// produced. Returns the position after the terminator byte and the net value
/// count of the stream. Every decoded node records its absolute input offset
/// `abs + position`.
fn read_instrs(
    p: &Vec<u8>,
    q: usize,
    abs: usize,
    lp: bool,
    exprs: &mut Vec<ExprData>,
    items: &mut Vec<ExprId>,
) -> (r: Result<(usize, i128), Error>)
    requires
        q <= p.len(),
        abs + p@.len() <= usize::MAX,
        exprs_wf(old(exprs)@),
        forall|k: int|
            0 <= k < old(items)@.len() ==> (#[trigger] old(items)@[k]).index < old(exprs)@.len(),
        lp ==> old(items)@.len() > 0,
        sorted(offs(flat_list(old(exprs)@, old(items)@))),
        forall|k: int|
            0 <= k < offs(flat_list(old(exprs)@, old(items)@)).len() ==> (#[trigger] offs(
                flat_list(old(exprs)@, old(items)@),
            )[k]) < abs + q,
    ensures
        match r {
            Ok((np, net)) => {
                &&& parse_instrs(p@.skip(q as int), lp) matches Some(pr) && pr.1 == p@.skip(
                    np as int,
                ) && instrs_of(flat_list(final(exprs)@, final(items)@)) == instrs_of(
                    flat_list(old(exprs)@, old(items)@),
                ) + pr.0 && net == body_net(pr.0)
                &&& q < np <= p.len()
                &&& -(np - q) <= net <= np - q
                &&& exprs_wf(final(exprs)@)
                &&& forall|k: int|
                    0 <= k < final(items)@.len()
                        ==> (#[trigger] final(items)@[k]).index < final(exprs)@.len()
                &&& sorted(offs(flat_list(final(exprs)@, final(items)@)))
                &&& offs(flat_list(old(exprs)@, old(items)@)).is_prefix_of(
                    offs(flat_list(final(exprs)@, final(items)@)),
                )
                &&& forall|k: int|
                    offs(flat_list(old(exprs)@, old(items)@)).len() <= k < offs(
                        flat_list(final(exprs)@, final(items)@),
                    ).len() ==> abs + q <= (#[trigger] offs(
                        flat_list(final(exprs)@, final(items)@),
                    )[k]) < abs + np
            },
            Err(e) => parse_instrs(p@.skip(q as int), lp) is None,
        },
    decreases p.len() - q,
{
    let ghost flat0 = flat_list(old(exprs)@, old(items)@);
    let ghost s = p@.skip(q as int);
    if q == p.len() {
        return Err(Error::at(ErrorKind::UnexpectedEof, q));
    }
    let b = p[q];
    proof {
        assert(s[0] == b);
        assert(s.skip(1) =~= p@.skip(q + 1));
    }
    if b == 0x0B {
        proof {
            assert(instrs_of(flat0) + Seq::<Instr>::empty() =~= instrs_of(flat0));
            assert(offs(flat0).is_prefix_of(offs(flat0)));
        }
        Ok((q + 1, 0))
    } else if b == 0x41 {
        let (v, q2) = match read_uleb(p, q + 1) {
            Ok(x) => x,
            Err(e) => {
                return Err(e);
            },
        };
        let node = ExprData { expr: Expr::I32Const(v), offset: Some(abs + q) };
        let id = ExprId { index: exprs.len() };
        exprs.push(node);
        items.push(id);
        proof {
            lemma_flat_list_push(old(exprs)@, node, old(items)@);
            assert(items@ =~= old(items)@ + seq![id]);
            lemma_flat_list_concat(exprs@, old(items)@, seq![id]);
            lemma_flat_list_single(exprs@, id);
            assert(flat_expr(exprs@, id.index as int) =~= seq![
                (Instr::I32Const(v), Some((abs + q) as usize)),
            ]);
            assert(flat_list(exprs@, items@) == flat0 + seq![(Instr::I32Const(v), Some((abs + q) as usize))]);
            lemma_offs_concat(flat0, seq![(Instr::I32Const(v), Some((abs + q) as usize))]);
            crate::ir::lemma_offs_single((Instr::I32Const(v), Some((abs + q) as usize)));
            lemma_sorted_concat(offs(flat0), seq![(abs + q) as usize], abs + q);
            lemma_instrs_of_concat(flat0, seq![(Instr::I32Const(v), Some((abs + q) as usize))]);
        }
        let ghost flat_mid = flat_list(exprs@, items@);
        match read_instrs(p, q2, abs, true, exprs, items) {
            Ok((np, net)) => {
                proof {
                    let (is, rest) = parse_instrs(p@.skip(q2 as int), true)->Some_0;
                    assert(parse_instrs(s, lp) == Some(
                        (seq![Instr::I32Const(v)] + is, rest),
                    ));
                    assert(instrs_of(flat_list(final(exprs)@, final(items)@)) =~= instrs_of(flat0)
                        + (seq![Instr::I32Const(v)] + is));
                    assert((seq![Instr::I32Const(v)] + is)[0] == Instr::I32Const(v));
                    assert((seq![Instr::I32Const(v)] + is).skip(1) =~= is);
                    assert(body_net(seq![Instr::I32Const(v)] + is) == 1 + body_net(is));
                    lemma_offs_concat(flat0, seq![(Instr::I32Const(v), Some((abs + q) as usize))]);
                    assert(offs(flat_mid) == offs(flat0) + seq![(abs + q) as usize]);
                    assert(offs(flat0).is_prefix_of(offs(flat_mid)));
                    assert(offs(flat0).is_prefix_of(
                        offs(flat_list(final(exprs)@, final(items)@)),
                    ));
                    assert(offs(flat_mid) =~= offs(flat_list(exprs@, items@)).subrange(
                        0,
                        offs(flat_mid).len() as int,
                    ));
                    assert forall|k: int|
                        offs(flat0).len() <= k < offs(flat_list(exprs@, items@)).len() implies abs
                        + q <= (#[trigger] offs(flat_list(exprs@, items@))[k]) < abs + np by {
                        let fm = offs(flat_mid);
                        let ff = offs(flat_list(exprs@, items@));
                        if k < fm.len() {
                            assert(ff[k] == ff.subrange(0, fm.len() as int)[k]);
                            assert(ff[k] == fm[k]);
                            assert(fm[k] == (abs + q) as usize);
                        }
                    }
                }
                Ok((np, net + 1))
            },
            Err(e) => Err(e),
        }
    } else if b == 0x1A {
        if !(lp) {
            return Err(Error::at(ErrorKind::StackUnderflow, q));
        }
        let copt = items.pop();
        let child = match copt {
            Some(c) => c,
            None => {
                proof {
                    assert(false);
                }
                return Err(Error::at(ErrorKind::StackUnderflow, q));
            },
        };
        let ghost items_mid = items@;
        let node = ExprData { expr: Expr::Drop(child), offset: Some(abs + q) };
        let id = ExprId { index: exprs.len() };
        exprs.push(node);
        items.push(id);
        proof {
            assert(old(items)@ =~= items_mid + seq![child]);
            lemma_flat_list_concat(old(exprs)@, items_mid, seq![child]);
            lemma_flat_list_single(old(exprs)@, child);
            assert(flat0 == flat_list(old(exprs)@, items_mid) + flat_expr(
                old(exprs)@,
                child.index as int,
            ));
            lemma_flat_list_push(old(exprs)@, node, items_mid);
            crate::ir::lemma_flat_expr_push(old(exprs)@, node, child.index as int);
            assert(items@ =~= items_mid + seq![id]);
            lemma_flat_list_concat(exprs@, items_mid, seq![id]);
            lemma_flat_list_single(exprs@, id);
            assert(flat_expr(exprs@, id.index as int) == flat_expr(exprs@, child.index as int)
                + seq![(Instr::Drop, Some((abs + q) as usize))]);
            assert(flat_list(exprs@, items@) =~= flat0 + seq![(Instr::Drop, Some((abs + q) as usize))]);
            lemma_offs_concat(flat0, seq![(Instr::Drop, Some((abs + q) as usize))]);
            crate::ir::lemma_offs_single((Instr::Drop, Some((abs + q) as usize)));
            lemma_sorted_concat(offs(flat0), seq![(abs + q) as usize], abs + q);
            lemma_instrs_of_concat(flat0, seq![(Instr::Drop, Some((abs + q) as usize))]);
        }
        let ghost flat_mid = flat_list(exprs@, items@);
        match read_instrs(p, q + 1, abs, false, exprs, items) {
            Ok((np, net)) => {
                proof {
                    let (is, rest) = parse_instrs(p@.skip(q + 1), false)->Some_0;
                    assert(parse_instrs(s, lp) == Some((seq![Instr::Drop] + is, rest)));
                    assert(instrs_of(flat_list(final(exprs)@, final(items)@)) =~= instrs_of(flat0)
                        + (seq![Instr::Drop] + is));
                    assert((seq![Instr::Drop] + is)[0] == Instr::Drop);
                    assert((seq![Instr::Drop] + is).skip(1) =~= is);
                    assert(body_net(seq![Instr::Drop] + is) == -1 + body_net(is));
                    assert(offs(flat_mid) == offs(flat0) + seq![(abs + q) as usize]);
                    assert(offs(flat0).is_prefix_of(offs(flat_mid)));
                    assert(offs(flat0).is_prefix_of(
                        offs(flat_list(final(exprs)@, final(items)@)),
                    ));
                    assert(offs(flat_mid) =~= offs(flat_list(exprs@, items@)).subrange(
                        0,
                        offs(flat_mid).len() as int,
                    ));
                    assert forall|k: int|
                        offs(flat0).len() <= k < offs(flat_list(exprs@, items@)).len() implies abs
                        + q <= (#[trigger] offs(flat_list(exprs@, items@))[k]) < abs + np by {
                        let fm = offs(flat_mid);
                        let ff = offs(flat_list(exprs@, items@));
                        if k < fm.len() {
                            assert(ff[k] == ff.subrange(0, fm.len() as int)[k]);
                            assert(ff[k] == fm[k]);
                            assert(fm[k] == (abs + q) as usize);
                        }
                    }
                }
                Ok((np, net - 1))
            },
            Err(e) => Err(e),
        }
    } else {
        Err(Error::at(ErrorKind::BadOpcode, q))
    }
}

/// Reads one framed code body: its local declarations and its instruction
/// stream as an expression tree, plus its net value count.
fn read_body(p: &Vec<u8>, pos: usize, abs: usize, cfg: &ModuleConfig) -> (r: Result<
    ((Vec<ValType>, Vec<ExprData>, Vec<ExprId>), usize, i128),
    Error,
>)
    requires
        pos <= p.len(),
        abs + p@.len() <= usize::MAX,
    ensures
        match r {
            Ok(((locals, exprs, entry), np, net)) => {
                &&& parse_body(p@.skip(pos as int), *cfg) matches Some((lb, rest)) && rest
                    == p@.skip(np as int) && lb.0 == locals@ && lb.1 == instrs_of(
                    flat_list(exprs@, entry@),
                ) && net == body_net(lb.1)
                &&& pos < np <= p.len()
                &&& exprs_wf(exprs@)
                &&& forall|k: int|
                    0 <= k < entry@.len() ==> (#[trigger] entry@[k]).index < exprs@.len()
                &&& sorted(offs(flat_list(exprs@, entry@)))
                &&& forall|k: int|
                    0 <= k < offs(flat_list(exprs@, entry@)).len() ==> abs + pos <= (
                    #[trigger] offs(flat_list(exprs@, entry@))[k]) < abs + np
            },
            Err(e) => parse_body(p@.skip(pos as int), *cfg) is None,
        },
{
    let (size, q1) = match read_uleb64(p, pos) {
        Ok(x) => x,
        Err(e) => {
            return Err(e);
        },
    };
    if size > (p.len() - q1) as u64 {
        return Err(Error::at(ErrorKind::SectionSizeMismatch, pos));
    }
    let end = q1 + size as usize;
    let bp = subrange_vec(p, q1, end);
    proof {
        assert(p@.skip(q1 as int).take(size as int) =~= p@.subrange(q1 as int, end as int));
        assert(p@.skip(q1 as int).skip(size as int) =~= p@.skip(end as int));
        assert(bp@.skip(0) =~= bp@);
    }
    let (nl, b1) = match read_uleb64(&bp, 0) {
        Ok(x) => x,
        Err(e) => {
            return Err(e);
        },
    };
    let (locals, b2) = match read_valtypes(&bp, b1, nl, cfg) {
        Ok(x) => x,
        Err(e) => {
            return Err(e);
        },
    };
    let mut exprs: Vec<ExprData> = Vec::new();
    let mut entry: Vec<ExprId> = Vec::new();
    proof {
        assert(flat_list(exprs@, entry@) =~= Seq::<(Instr, Option<usize>)>::empty());
        assert(offs(flat_list(exprs@, entry@)) =~= Seq::<usize>::empty());
    }
    let (b3, net) = match read_instrs(&bp, b2, abs + q1, false, &mut exprs, &mut entry) {
        Ok(x) => x,
        Err(e) => {
            return Err(e);
        },
    };
    if b3 != bp.len() {
        proof {
            assert(bp@.skip(b3 as int).len() != 0);
        }
        return Err(Error::at(ErrorKind::SectionSizeMismatch, b3));
    }
    proof {
        assert(bp@.skip(b3 as int).len() == 0);
        assert(instrs_of(flat_list(exprs@, entry@)) =~= instrs_of(
            Seq::<(Instr, Option<usize>)>::empty(),
        ) + instrs_of(flat_list(exprs@, entry@)));
        assert(instrs_of(Seq::<(Instr, Option<usize>)>::empty()) =~= Seq::<Instr>::empty());
        assert(Seq::<Instr>::empty() + instrs_of(flat_list(exprs@, entry@)) =~= instrs_of(
            flat_list(exprs@, entry@),
        ));
    }
    Ok(((locals, exprs, entry), end, net))
}

/// Reads one framed body per remaining declared signature, appending the
/// decoded functions to the arena in order.
fn read_bodies(
    p: &Vec<u8>,
    pos: usize,
    abs: usize,
    sigs: &Vec<TypeId>,
    k: usize,
    cfg: &ModuleConfig,
    funcs: &mut Vec<LocalFunction>,
    nets: &mut Vec<i128>,
) -> (r: Result<usize, Error>)
    requires
        pos <= p.len(),
        abs + p@.len() <= usize::MAX,
        k <= sigs.len(),
        old(funcs)@.len() == old(nets)@.len(),
        forall|j: int| 0 <= j < old(funcs)@.len() ==> (#[trigger] old(funcs)@[j]).wf(),
        sorted(all_offs(old(funcs)@)),
        forall|j: int|
            0 <= j < all_offs(old(funcs)@).len() ==> (#[trigger] all_offs(old(funcs)@)[j]) < abs
                + pos,
    ensures
        match r {
            Ok(np) => {
                &&& parse_bodies(
                    p@.skip(pos as int),
                    sigs@.map_values(|t: TypeId| t.index as int).skip(k as int),
                    *cfg,
                ) matches Some(pr) && pr.1 == p@.skip(np as int) && final(funcs)@.map_values(
                    |f: LocalFunction| f@,
                ) == old(funcs)@.map_values(|f: LocalFunction| f@) + pr.0
                &&& pos <= np <= p.len()
                &&& final(funcs)@.len() == old(funcs)@.len() + (sigs@.len() - k)
                &&& final(nets)@.len() == final(funcs)@.len()
                &&& forall|j: int|
                    0 <= j < old(funcs)@.len() ==> #[trigger] final(funcs)@[j] == old(funcs)@[j]
                        && final(nets)@[j] == old(nets)@[j]
                &&& forall|j: int|
                    0 <= j < final(funcs)@.len() ==> (#[trigger] final(funcs)@[j]).wf()
                &&& forall|j: int|
                    old(funcs)@.len() <= j < final(funcs)@.len()
                        ==> (#[trigger] final(funcs)@[j]).ty == sigs@[j - old(funcs)@.len() + k]
                &&& forall|j: int|
                    old(funcs)@.len() <= j < final(funcs)@.len() ==> #[trigger] final(nets)@[j]
                        == body_net(final(funcs)@[j]@.body)
                &&& sorted(all_offs(final(funcs)@))
                &&& forall|j: int|
                    0 <= j < all_offs(final(funcs)@).len() ==> (#[trigger] all_offs(
                        final(funcs)@,
                    )[j]) < abs + np
            },
            Err(e) => parse_bodies(
                p@.skip(pos as int),
                sigs@.map_values(|t: TypeId| t.index as int).skip(k as int),
                *cfg,
            ) is None,
        },
    decreases sigs.len() - k,
{
    let ghost sv = sigs@.map_values(|t: TypeId| t.index as int);
    if k == sigs.len() {
        proof {
            assert(sv.skip(k as int) =~= Seq::<int>::empty());
            assert(final(funcs)@.map_values(|f: LocalFunction| f@) =~= old(funcs)@.map_values(
                |f: LocalFunction| f@,
            ) + Seq::<FuncV>::empty());
        }
        Ok(pos)
    } else {
        let ((locals, exprs, entry), np1, net) = match read_body(p, pos, abs, cfg) {
            Ok(x) => x,
            Err(e) => {
                proof {
                    assert(sv.skip(k as int).len() > 0);
                }
                return Err(e);
            },
        };
        let ghost fl = flat_list(exprs@, entry@);
        let ghost lv = locals@;
        let f = LocalFunction { ty: sigs[k], locals, exprs, entry };
        let ghost fv = f@;
        funcs.push(f);
        nets.push(net);
        let ghost mid_funcs = funcs@;
        proof {
            lemma_all_offs_push(old(funcs)@, mid_funcs.last());
            assert(mid_funcs.last().in_offsets() == offs(fl));
            lemma_sorted_concat(all_offs(old(funcs)@), offs(fl), (abs + pos) as int);
            assert(sorted(all_offs(mid_funcs)));
            assert(forall|j: int|
                0 <= j < all_offs(mid_funcs).len() ==> (#[trigger] all_offs(mid_funcs)[j]) < abs
                    + np1);
        }
        match read_bodies(p, np1, abs, sigs, k + 1, cfg, funcs, nets) {
            Ok(np) => {
                proof {
                    let s = sv.skip(k as int);
                    assert(s[0] == sv[k as int]);
                    assert(s.skip(1) =~= sv.skip(k + 1));
                    let (fs_tail, rest) = parse_bodies(
                        p@.skip(np1 as int),
                        sv.skip(k + 1),
                        *cfg,
                    )->Some_0;
                    assert(fv == FuncV { ty: sv[k as int], locals: lv, body: instrs_of(fl) });
                    assert(parse_bodies(p@.skip(pos as int), s, *cfg) == Some(
                        (seq![fv] + fs_tail, rest),
                    ));
                    assert(mid_funcs.map_values(|g: LocalFunction| g@) =~= old(funcs)@.map_values(
                        |g: LocalFunction| g@,
                    ) + seq![fv]);
                    assert(final(funcs)@.map_values(|g: LocalFunction| g@) =~= old(
                        funcs,
                    )@.map_values(|g: LocalFunction| g@) + (seq![fv] + fs_tail));
                }
                Ok(np)
            },
            Err(e) => {
                proof {
                    let s = sv.skip(k as int);
                    assert(s[0] == sv[k as int]);
                    assert(s.skip(1) =~= sv.skip(k + 1));
                    assert(fv == FuncV { ty: sv[k as int], locals: lv, body: instrs_of(fl) });
                }
                Err(e)
            },
        }
    }
}

/// Reads the trailing run of custom sections into the registry, in file
/// order, each under a fresh identifier.
fn read_customs(data: &Vec<u8>, pos: usize, customs: &mut ModuleCustomSections) -> (r: Result<
    (),
    Error,
>)
    requires
        pos <= data.len(),
        old(customs).wf(),
        old(customs).next_id + (data@.len() - pos) <= usize::MAX,
    ensures
        match r {
            Ok(u) => {
                &&& parse_customs(data@.skip(pos as int)) matches Some(cs)
                    && crate::customs::sections_of(final(customs)@) == crate::customs::sections_of(
                    old(customs)@,
                ) + cs
                &&& final(customs).wf()
                &&& final(customs)@.len() >= old(customs)@.len()
                &&& forall|j: int|
                    0 <= j < old(customs)@.len() ==> #[trigger] final(customs)@[j] == old(
                        customs,
                    )@[j]
            },
            Err(e) => parse_customs(data@.skip(pos as int)) is None,
        },
    decreases data.len() - pos,
{
    let ghost s = data@.skip(pos as int);
    if pos == data.len() {
        proof {
            assert(s.len() == 0);
            assert(crate::customs::sections_of(final(customs)@) =~= crate::customs::sections_of(
                old(customs)@,
            ) + Seq::<CustomV>::empty());
        }
        return Ok(());
    }
    proof {
        assert(s[0] == data@[pos as int]);
    }
    if data[pos] != 0 {
        return Err(Error::at(ErrorKind::BadSection, pos));
    }
    let (p, st, np) = match read_section(data, pos) {
        Ok(x) => x,
        Err(e) => {
            return Err(e);
        },
    };
    proof {
        assert(p@.skip(0) =~= p@);
    }
    let (nlen, q) = match read_uleb64(&p, 0) {
        Ok(x) => x,
        Err(e) => {
            return Err(e);
        },
    };
    if nlen > (p.len() - q) as u64 {
        return Err(Error::at(ErrorKind::UnexpectedEof, st));
    }
    let name_end = q + nlen as usize;
    let name = subrange_vec(&p, q, name_end);
    let payload = subrange_vec(&p, name_end, p.len());
    proof {
        assert(p@.skip(q as int).take(nlen as int) =~= p@.subrange(q as int, name_end as int));
        assert(p@.skip(q as int).skip(nlen as int) =~= p@.subrange(
            name_end as int,
            p@.len() as int,
        ));
    }
    let ghost c = CustomV { name: name@, data: payload@ };
    let id = customs.add(RawCustomSection { name, data: payload });
    let ghost mid = customs@;
    match read_customs(data, np, customs) {
        Ok(u) => {
            proof {
                let cs_tail = parse_customs(data@.skip(np as int))->Some_0;
                assert(parse_customs(s) == Some(seq![c] + cs_tail));
                assert(crate::customs::sections_of(mid) =~= crate::customs::sections_of(
                    old(customs)@,
                ) + seq![c]);
                assert(crate::customs::sections_of(final(customs)@) =~= crate::customs::sections_of(
                    old(customs)@,
                ) + (seq![c] + cs_tail));
            }
            Ok(())
        },
        Err(e) => Err(e),
    }
}

/// Checks the strict-validation rule for every function: the body's net value
/// count matches the declared results, each a 32-bit integer.
fn check_strict(types: &Vec<FuncType>, funcs: &Vec<LocalFunction>, nets: &Vec<i128>) -> (r: bool)
    requires
        nets@.len() == funcs@.len(),
        forall|j: int| 0 <= j < funcs@.len() ==> (#[trigger] funcs@[j]).ty.index < types@.len(),
        forall|j: int|
            0 <= j < funcs@.len() ==> #[trigger] nets@[j] == body_net(funcs@[j]@.body),
    ensures
        r == strict_ok_funcs(
            funcs@.map_values(|f: LocalFunction| f@),
            types@.map_values(|t: FuncType| t@),
        ),
{
    let ghost fv = funcs@.map_values(|f: LocalFunction| f@);
    let ghost tv = types@.map_values(|t: FuncType| t@);
    let mut j: usize = 0;
    while j < funcs.len()
        invariant
            j <= funcs@.len(),
            fv == funcs@.map_values(|f: LocalFunction| f@),
            tv == types@.map_values(|t: FuncType| t@),
            nets@.len() == funcs@.len(),
            forall|i: int| 0 <= i < funcs@.len() ==> (#[trigger] funcs@[i]).ty.index < types@.len(),
            forall|i: int|
                0 <= i < funcs@.len() ==> #[trigger] nets@[i] == body_net(funcs@[i]@.body),
            forall|i: int| 0 <= i < j as int ==> strict_ok_fn(#[trigger] fv[i], tv),
        decreases funcs@.len() - j,
    {
        let f = &funcs[j];
        let t = &types[f.ty.index];
        proof {
            assert(t@ == tv[fv[j as int].ty]);
        }
        if (t.results.len() as i128) != nets[j] {
            proof {
                assert(!strict_ok_fn(fv[j as int], tv));
            }
            return false;
        }
        let mut ri: usize = 0;
        while ri < t.results.len()
            invariant
                ri <= t.results@.len(),
                j < funcs@.len(),
                fv == funcs@.map_values(|f: LocalFunction| f@),
                tv == types@.map_values(|x: FuncType| x@),
                nets@.len() == funcs@.len(),
                0 <= fv[j as int].ty < tv.len(),
                t@ == tv[fv[j as int].ty],
                forall|x: int| 0 <= x < ri as int ==> (#[trigger] t.results@[x]) == ValType::I32,
            decreases t.results@.len() - ri,
        {
            if !matches!(t.results[ri], ValType::I32) {
                proof {
                    assert(tv[fv[j as int].ty].results[ri as int] == t.results@[ri as int]);
                    assert(!all_i32(tv[fv[j as int].ty].results));
                    assert(!strict_ok_fn(fv[j as int], tv));
                }
                return false;
            }
            ri = ri + 1;
        }
        proof {
            assert(all_i32(tv[fv[j as int].ty].results));
            assert(strict_ok_fn(fv[j as int], tv));
        }
        j = j + 1;
    }
    true
}

/// Reads the optional type section at `pos`.
fn read_types_opt(wasm: &Vec<u8>, pos: usize, cfg: &ModuleConfig) -> (r: Result<
    (Vec<FuncType>, usize),
    Error,
>)
    requires
        pos <= wasm.len(),
    ensures
        match r {
            Ok((ts, np)) => parse_types_opt(wasm@.skip(pos as int), *cfg) == Some(
                (ts@.map_values(|t: FuncType| t@), wasm@.skip(np as int)),
            ) && pos <= np <= wasm.len(),
            Err(e) => parse_types_opt(wasm@.skip(pos as int), *cfg) is None,
        },
{
    let ghost r0 = wasm@.skip(pos as int);
    if pos < wasm.len() && wasm[pos] == 1 {
        proof {
            assert(r0[0] == wasm@[pos as int]);
        }
        let (p, st, np) = match read_section(wasm, pos) {
            Ok(x) => x,
            Err(e) => {
                return Err(e);
            },
        };
        let ts = match read_type_payload(&p, cfg) {
            Ok(x) => x,
            Err(e) => {
                return Err(e);
            },
        };
        Ok((ts, np))
    } else {
        let ts: Vec<FuncType> = Vec::new();
        proof {
            if r0.len() > 0 {
                assert(r0[0] == wasm@[pos as int]);
            }
            assert(ts@.map_values(|t: FuncType| t@) =~= Seq::<FuncTypeV>::empty());
        }
        Ok((ts, pos))
    }
}

/// Reads the optional function section at `pos`.
fn read_sigs_opt(wasm: &Vec<u8>, pos: usize, ntypes: usize) -> (r: Result<
    (Vec<TypeId>, usize),
    Error,
>)
    requires
        pos <= wasm.len(),
    ensures
        match r {
            Ok((ts, np)) => parse_sigs_opt(wasm@.skip(pos as int), ntypes as nat) == Some(
                (ts@.map_values(|t: TypeId| t.index as int), wasm@.skip(np as int)),
            ) && pos <= np <= wasm.len() && (forall|j: int|
                0 <= j < ts@.len() ==> (#[trigger] ts@[j]).index < ntypes),
            Err(e) => parse_sigs_opt(wasm@.skip(pos as int), ntypes as nat) is None,
        },
{
    let ghost r0 = wasm@.skip(pos as int);
    if pos < wasm.len() && wasm[pos] == 3 {
        proof {
            assert(r0[0] == wasm@[pos as int]);
        }
        let (p, st, np) = match read_section(wasm, pos) {
            Ok(x) => x,
            Err(e) => {
                return Err(e);
            },
        };
        let ts = match read_sigs_payload(&p, ntypes) {
            Ok(x) => x,
            Err(e) => {
                return Err(e);
            },
        };
        Ok((ts, np))
    } else {
        let ts: Vec<TypeId> = Vec::new();
        proof {
            if r0.len() > 0 {
                assert(r0[0] == wasm@[pos as int]);
            }
            assert(ts@.map_values(|t: TypeId| t.index as int) =~= Seq::<int>::empty());
        }
        Ok((ts, pos))
    }
}

/// Reads the optional export section at `pos`.
fn read_exports_opt(wasm: &Vec<u8>, pos: usize, nfuncs: usize) -> (r: Result<
    (Vec<Export>, usize),
    Error,
>)
    requires
        pos <= wasm.len(),
    ensures
        match r {
            Ok((es, np)) => parse_exports_opt(wasm@.skip(pos as int), nfuncs as nat) == Some(
                (es@.map_values(|e: Export| e@), wasm@.skip(np as int)),
            ) && pos <= np <= wasm.len() && (forall|j: int|
                0 <= j < es@.len() ==> (#[trigger] es@[j]).item.index < nfuncs),
            Err(e) => parse_exports_opt(wasm@.skip(pos as int), nfuncs as nat) is None,
        },
{
    let ghost r0 = wasm@.skip(pos as int);
    if pos < wasm.len() && wasm[pos] == 7 {
        proof {
            assert(r0[0] == wasm@[pos as int]);
        }
        let (p, st, np) = match read_section(wasm, pos) {
            Ok(x) => x,
            Err(e) => {
                return Err(e);
            },
        };
        let es = match read_exports_payload(&p, nfuncs) {
            Ok(x) => x,
            Err(e) => {
                return Err(e);
            },
        };
        Ok((es, np))
    } else {
        let es: Vec<Export> = Vec::new();
        proof {
            if r0.len() > 0 {
                assert(r0[0] == wasm@[pos as int]);
            }
            assert(es@.map_values(|e: Export| e@) =~= Seq::<ExportV>::empty());
        }
        Ok((es, pos))
    }
}

/// Reads the code section at `pos`, required exactly when functions were
/// declared.
fn read_code_opt(wasm: &Vec<u8>, pos: usize, sigs: &Vec<TypeId>, cfg: &ModuleConfig) -> (r: Result<
    (Vec<LocalFunction>, Vec<i128>, usize),
    Error,
>)
    requires
        pos <= wasm.len(),
    ensures
        match r {
            Ok((fs, nets, np)) => {
                &&& parse_code_opt(
                    wasm@.skip(pos as int),
                    sigs@.map_values(|t: TypeId| t.index as int),
                    *cfg,
                ) == Some((fs@.map_values(|f: LocalFunction| f@), wasm@.skip(np as int)))
                &&& pos <= np <= wasm.len()
                &&& nets@.len() == fs@.len()
                &&& fs@.len() == sigs@.len()
                &&& forall|j: int| 0 <= j < fs@.len() ==> (#[trigger] fs@[j]).wf()
                &&& forall|j: int|
                    0 <= j < fs@.len() ==> (#[trigger] fs@[j]).ty == sigs@[j]
                &&& forall|j: int|
                    0 <= j < fs@.len() ==> #[trigger] nets@[j] == body_net(fs@[j]@.body)
                &&& sorted(all_offs(fs@))
            },
            Err(e) => parse_code_opt(
                wasm@.skip(pos as int),
                sigs@.map_values(|t: TypeId| t.index as int),
                *cfg,
            ) is None,
        },
{
    let ghost r0 = wasm@.skip(pos as int);
    let ghost sv = sigs@.map_values(|t: TypeId| t.index as int);
    let mut fs: Vec<LocalFunction> = Vec::new();
    let mut nets: Vec<i128> = Vec::new();
    if pos < wasm.len() && wasm[pos] == 10 {
        proof {
            assert(r0[0] == wasm@[pos as int]);
        }
        let (p, st, np) = match read_section(wasm, pos) {
            Ok(x) => x,
            Err(e) => {
                return Err(e);
            },
        };
        proof {
            assert(p@.skip(0) =~= p@);
        }
        let (n, q) = match read_uleb64(&p, 0) {
            Ok(x) => x,
            Err(e) => {
                return Err(e);
            },
        };
        if n != sigs.len() as u64 {
            return Err(Error::at(ErrorKind::CountMismatch, st));
        }
        proof {
            assert(all_offs(fs@) =~= Seq::<usize>::empty());
            assert(sv.skip(0) =~= sv);
        }
        let np_in = match read_bodies(&p, q, st, sigs, 0, cfg, &mut fs, &mut nets) {
            Ok(x) => x,
            Err(e) => {
                return Err(e);
            },
        };
        if np_in != p.len() {
            proof {
                assert(p@.skip(np_in as int).len() != 0);
            }
            return Err(Error::at(ErrorKind::SectionSizeMismatch, np_in));
        }
        proof {
            assert(p@.skip(np_in as int).len() == 0);
            assert(fs@.map_values(|f: LocalFunction| f@) =~= Seq::<FuncV>::empty()
                + fs@.map_values(|f: LocalFunction| f@));
        }
        Ok((fs, nets, np))
    } else {
        if sigs.len() > 0 {
            proof {
                if r0.len() > 0 {
                    assert(r0[0] == wasm@[pos as int]);
                }
            }
            return Err(Error::at(ErrorKind::CountMismatch, pos));
        }
        proof {
            if r0.len() > 0 {
                assert(r0[0] == wasm@[pos as int]);
            }
            assert(fs@.map_values(|f: LocalFunction| f@) =~= Seq::<FuncV>::empty());
            assert(all_offs(fs@) =~= Seq::<usize>::empty());
        }
        Ok((fs, nets, pos))
    }
}

/// Decodes a byte buffer into a module under `config`; fails with a
/// structured error exactly where the specification-level parse fails.
#[verifier::rlimit(100)]
#[verifier::spinoff_prover]
pub(crate) fn decode_module(wasm: &Vec<u8>, config: &ModuleConfig) -> (r: Result<Module, Error>)
    ensures
        parse_ok(wasm@, *config) == (r is Ok),
        r matches Ok(m) ==> m.wf() && m@ == parse_spec(wasm@, *config)->Some_0 && m.config
            == *config,
{
    let cfg = *config;
    if wasm.len() < 8 {
        return Err(Error::at(ErrorKind::BadHeader, 0));
    }
    if wasm[0] != 0x00 || wasm[1] != 0x61 || wasm[2] != 0x73 || wasm[3] != 0x6D || wasm[4] != 0x01
        || wasm[5] != 0x00 || wasm[6] != 0x00 || wasm[7] != 0x00 {
        proof {
            assert(wasm@.take(8) != header());
        }
        return Err(Error::at(ErrorKind::BadHeader, 0));
    }
    proof {
        assert(wasm@.take(8) =~= header());
    }
    let (types_vec, pos1) = match read_types_opt(wasm, 8, &cfg) {
        Ok(x) => x,
        Err(e) => {
            return Err(e);
        },
    };
    let (sigs_vec, pos2) = match read_sigs_opt(wasm, pos1, types_vec.len()) {
        Ok(x) => x,
        Err(e) => {
            return Err(e);
        },
    };
    let (exports_vec, pos3) = match read_exports_opt(wasm, pos2, sigs_vec.len()) {
        Ok(x) => x,
        Err(e) => {
            return Err(e);
        },
    };
    let (funcs_vec, nets, pos4) = match read_code_opt(wasm, pos3, &sigs_vec, &cfg) {
        Ok(x) => x,
        Err(e) => {
            return Err(e);
        },
    };
    let mut customs = ModuleCustomSections::new();
    match read_customs(wasm, pos4, &mut customs) {
        Ok(u) => {},
        Err(e) => {
            return Err(e);
        },
    }
    proof {
        assert forall|j: int|
            0 <= j < funcs_vec@.len() implies (#[trigger] funcs_vec@[j]).ty.index
            < types_vec@.len() by {
            assert(funcs_vec@[j].ty == sigs_vec@[j]);
        }
        assert(crate::customs::sections_of(Seq::<crate::customs::EntryV>::empty()) =~= Seq::<
            CustomV,
        >::empty());
        assert(crate::customs::sections_of(customs@) =~= parse_customs(
            wasm@.skip(pos4 as int),
        )->Some_0);
    }
    if !cfg.skip_strict_validate {
        if !check_strict(&types_vec, &funcs_vec, &nets) {
            return Err(Error::at(ErrorKind::StrictViolation, 0));
        }
    }
    let m = Module {
        config: cfg,
        types: ModuleTypes { list: types_vec },
        funcs: ModuleFunctions { list: funcs_vec },
        exports: ModuleExports { list: exports_vec },
        customs,
    };
    proof {
        let mv = parse_spec(wasm@, *config)->Some_0;
        assert(m@.customs =~= mv.customs);
        assert(m@ == mv);
        assert(m.wf());
    }
    Ok(m)
}

} // verus!
