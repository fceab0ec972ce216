//! Library-wide laws, proved against the byte-level encode and parse
//! specifications that the executable encoder and decoder are verified
//! against.

use vstd::prelude::*;
use crate::config::ModuleConfig;
use crate::customs::CustomV;
use crate::codec::{
    custom_bytes, customs_bytes, emit_spec, emitted_customs, frame_section, has_custom_named,
    header, parse_customs, parse_spec, producers_name, section_bytes, strict_ok,
};
use crate::leb::{lemma_u64_round_trip, uleb};
use crate::module::ModuleV;

verus! {

/// Every length written while encoding one custom section fits the 64-bit
/// varint that frames it.
pub open spec fn custom_fits(c: CustomV) -> bool {
    uleb(c.name.len()).len() + c.name.len() + c.data.len() < 0x1_0000_0000_0000_0000
}

/// The first stored custom section carrying `n`, scanning from the front.
pub open spec fn first_named(cs: Seq<CustomV>, n: Seq<u8>) -> Option<CustomV>
    decreases cs.len(),
{
    if cs.len() == 0 {
        None
    } else if cs[0].name == n {
        Some(cs[0])
    } else {
        first_named(cs.skip(1), n)
    }
}

/// Canonical form of an instruction stream: a discard appears only right
/// after an instruction that produced a value. `lp` tells whether the
/// instruction before the stream did. Encoding a well-formed expression tree
/// yields canonical streams, and the decoder accepts exactly these.
pub open spec fn canon(body: Seq<crate::ir::Instr>, lp: bool) -> bool
    decreases body.len(),
{
    if body.len() == 0 {
        true
    } else {
        match body[0] {
            crate::ir::Instr::I32Const(_) => canon(body.skip(1), true),
            crate::ir::Instr::Drop => lp && canon(body.skip(1), false),
        }
    }
}

/// Decoding inverts encoding for a canonical instruction stream followed by
/// its terminator byte.
pub proof fn lemma_parse_instrs_inv(body: Seq<crate::ir::Instr>, lp: bool, rest: Seq<u8>)
    requires
        canon(body, lp),
    ensures
        crate::codec::parse_instrs(
            crate::codec::instrs_bytes(body) + seq![0x0Bu8] + rest,
            lp,
        ) == Some((body, rest)),
    decreases body.len(),
{
    let s = crate::codec::instrs_bytes(body) + seq![0x0Bu8] + rest;
    if body.len() == 0 {
        assert(crate::codec::instrs_bytes(body) =~= Seq::<u8>::empty());
        assert(s =~= seq![0x0Bu8] + rest);
        assert(s[0] == 0x0B);
        assert(s.skip(1) =~= rest);
    } else {
        let tail_bytes = crate::codec::instrs_bytes(body.skip(1)) + seq![0x0Bu8] + rest;
        lemma_parse_instrs_inv(body.skip(1), body[0] is I32Const, rest);
        match body[0] {
            crate::ir::Instr::I32Const(v) => {
                assert(s =~= seq![0x41u8] + (uleb(v as nat) + tail_bytes));
                assert(s[0] == 0x41);
                assert(s.skip(1) =~= uleb(v as nat) + tail_bytes);
                crate::leb::lemma_u32_round_trip(v, tail_bytes);
                assert(seq![body[0]] + body.skip(1) =~= body);
            },
            crate::ir::Instr::Drop => {
                assert(s =~= seq![0x1Au8] + tail_bytes);
                assert(s[0] == 0x1A);
                assert(s.skip(1) =~= tail_bytes);
                assert(seq![body[0]] + body.skip(1) =~= body);
            },
        }
    }
}

/// Whether a value type is admitted under the configuration: the unstable
/// vector type only when stable-features-only is off.
pub open spec fn vt_ok(t: crate::ir::ValType, cfg: ModuleConfig) -> bool {
    cfg.only_stable_features ==> t != crate::ir::ValType::V128
}

/// All value types of a list admitted under the configuration.
pub open spec fn vts_ok(ts: Seq<crate::ir::ValType>, cfg: ModuleConfig) -> bool {
    forall|i: int| 0 <= i < ts.len() ==> vt_ok(#[trigger] ts[i], cfg)
}

/// Decoding inverts encoding for a list of value types.
pub proof fn lemma_parse_valtypes_inv(ts: Seq<crate::ir::ValType>, rest: Seq<u8>, cfg: ModuleConfig)
    requires
        vts_ok(ts, cfg),
    ensures
        crate::codec::parse_valtypes(
            crate::codec::valtypes_bytes(ts) + rest,
            ts.len(),
            cfg,
        ) == Some((ts, rest)),
    decreases ts.len(),
{
    let s = crate::codec::valtypes_bytes(ts) + rest;
    if ts.len() == 0 {
        assert(crate::codec::valtypes_bytes(ts) =~= Seq::<u8>::empty());
        assert(s =~= rest);
        assert(Some((ts, rest)) == Some((Seq::<crate::ir::ValType>::empty(), rest)));
    } else {
        let tail = crate::codec::valtypes_bytes(ts.skip(1)) + rest;
        assert(s =~= seq![crate::codec::valtype_byte(ts[0])] + tail);
        assert(s[0] == crate::codec::valtype_byte(ts[0]));
        assert(s.skip(1) =~= tail);
        assert(vt_ok(ts[0], cfg));
        lemma_parse_valtypes_inv(ts.skip(1), rest, cfg);
        assert(crate::codec::parse_valtype(s, cfg) == Some((ts[0], tail)));
        assert(seq![ts[0]] + ts.skip(1) =~= ts);
    }
}

/// Decoding inverts encoding for one function type.
pub proof fn lemma_parse_functype_inv(t: crate::ir::FuncTypeV, rest: Seq<u8>, cfg: ModuleConfig)
    requires
        t.params.len() < 0x1_0000_0000_0000_0000,
        t.results.len() < 0x1_0000_0000_0000_0000,
        vts_ok(t.params, cfg),
        vts_ok(t.results, cfg),
    ensures
        crate::codec::parse_functype(crate::codec::functype_bytes(t) + rest, cfg) == Some(
            (t, rest),
        ),
{
    let pb = crate::codec::valtypes_bytes(t.params);
    let rb = crate::codec::valtypes_bytes(t.results);
    let s = crate::codec::functype_bytes(t) + rest;
    assert(s =~= seq![0x60u8] + (uleb(t.params.len()) + (pb + (uleb(t.results.len()) + (rb
        + rest)))));
    assert(s[0] == 0x60);
    assert(s.skip(1) =~= uleb(t.params.len()) + (pb + (uleb(t.results.len()) + (rb + rest))));
    assert(uleb((t.params.len() as u64) as nat) == uleb(t.params.len()));
    lemma_u64_round_trip(t.params.len() as u64, pb + (uleb(t.results.len()) + (rb + rest)));
    assert(pb + (uleb(t.results.len()) + (rb + rest)) =~= (pb + (uleb(t.results.len()) + (rb
        + rest))));
    lemma_parse_valtypes_inv(t.params, uleb(t.results.len()) + (rb + rest), cfg);
    assert(crate::codec::valtypes_bytes(t.params) + (uleb(t.results.len()) + (rb + rest)) =~= pb + (
    uleb(t.results.len()) + (rb + rest)));
    assert(uleb((t.results.len() as u64) as nat) == uleb(t.results.len()));
    lemma_u64_round_trip(t.results.len() as u64, rb + rest);
    lemma_parse_valtypes_inv(t.results, rest, cfg);
    assert(crate::codec::valtypes_bytes(t.results) + rest =~= rb + rest);
    assert(crate::ir::FuncTypeV { params: t.params, results: t.results } == t);
}

/// Decoding inverts encoding for a list of function types.
pub proof fn lemma_parse_functypes_inv(ts: Seq<crate::ir::FuncTypeV>, rest: Seq<u8>, cfg: ModuleConfig)
    requires
        forall|i: int|
            0 <= i < ts.len() ==> (#[trigger] ts[i]).params.len() < 0x1_0000_0000_0000_0000
                && ts[i].results.len() < 0x1_0000_0000_0000_0000 && vts_ok(ts[i].params, cfg)
                && vts_ok(ts[i].results, cfg),
    ensures
        crate::codec::parse_functypes(
            crate::codec::functypes_bytes(ts) + rest,
            ts.len(),
            cfg,
        ) == Some((ts, rest)),
    decreases ts.len(),
{
    if ts.len() == 0 {
        assert(crate::codec::functypes_bytes(ts) =~= Seq::<u8>::empty());
        assert(crate::codec::functypes_bytes(ts) + rest =~= rest);
    } else {
        let tail = crate::codec::functypes_bytes(ts.skip(1)) + rest;
        assert(crate::codec::functypes_bytes(ts) + rest =~= crate::codec::functype_bytes(ts[0])
            + tail);
        lemma_parse_functype_inv(ts[0], tail, cfg);
        lemma_parse_functypes_inv(ts.skip(1), rest, cfg);
        assert(seq![ts[0]] + ts.skip(1) =~= ts);
    }
}

/// Decoding inverts encoding for the declared type indices.
pub proof fn lemma_parse_sigs_inv(fs: Seq<crate::ir::FuncV>, rest: Seq<u8>, ntypes: nat)
    requires
        ntypes <= 0x1_0000_0000_0000_0000,
        forall|i: int| 0 <= i < fs.len() ==> 0 <= (#[trigger] fs[i]).ty < ntypes,
    ensures
        crate::codec::parse_sigs(crate::codec::sigs_bytes(fs) + rest, fs.len(), ntypes) == Some(
            (fs.map_values(|f: crate::ir::FuncV| f.ty), rest),
        ),
    decreases fs.len(),
{
    if fs.len() == 0 {
        assert(crate::codec::sigs_bytes(fs) =~= Seq::<u8>::empty());
        assert(crate::codec::sigs_bytes(fs) + rest =~= rest);
        assert(fs.map_values(|f: crate::ir::FuncV| f.ty) =~= Seq::<int>::empty());
    } else {
        let tail = crate::codec::sigs_bytes(fs.skip(1)) + rest;
        assert(crate::codec::sigs_bytes(fs) + rest =~= uleb(fs[0].ty as nat) + tail);
        assert(uleb((fs[0].ty as u64) as nat) == uleb(fs[0].ty as nat));
        lemma_u64_round_trip(fs[0].ty as u64, tail);
        lemma_parse_sigs_inv(fs.skip(1), rest, ntypes);
        assert(fs.skip(1).map_values(|f: crate::ir::FuncV| f.ty) =~= fs.map_values(
            |f: crate::ir::FuncV| f.ty,
        ).skip(1));
        assert(seq![fs[0].ty] + fs.map_values(|f: crate::ir::FuncV| f.ty).skip(1) =~= fs.map_values(
            |f: crate::ir::FuncV| f.ty,
        ));
    }
}

/// Decoding inverts encoding for one export record.
pub proof fn lemma_parse_export_inv(e: crate::ir::ExportV, rest: Seq<u8>, nfuncs: nat)
    requires
        e.name.len() < 0x1_0000_0000_0000_0000,
        nfuncs <= 0x1_0000_0000_0000_0000,
        0 <= e.item < nfuncs,
    ensures
        crate::codec::parse_export(crate::codec::export_bytes(e) + rest, nfuncs) == Some(
            (e, rest),
        ),
{
    let s = crate::codec::export_bytes(e) + rest;
    assert(s =~= uleb(e.name.len()) + (e.name + (seq![0x00u8] + (uleb(e.item as nat) + rest))));
    assert(uleb((e.name.len() as u64) as nat) == uleb(e.name.len()));
    lemma_u64_round_trip(e.name.len() as u64, e.name + (seq![0x00u8] + (uleb(e.item as nat)
        + rest)));
    let r1 = e.name + (seq![0x00u8] + (uleb(e.item as nat) + rest));
    assert(r1.take(e.name.len() as int) =~= e.name);
    assert(r1.skip(e.name.len() as int) =~= seq![0x00u8] + (uleb(e.item as nat) + rest));
    let r2 = seq![0x00u8] + (uleb(e.item as nat) + rest);
    assert(r2[0] == 0x00);
    assert(r2.skip(1) =~= uleb(e.item as nat) + rest);
    assert(uleb((e.item as u64) as nat) == uleb(e.item as nat));
    lemma_u64_round_trip(e.item as u64, rest);
    assert(crate::ir::ExportV { name: e.name, item: e.item } == e);
}

/// Decoding inverts encoding for a list of exports.
pub proof fn lemma_parse_exports_inv(es: Seq<crate::ir::ExportV>, rest: Seq<u8>, nfuncs: nat)
    requires
        nfuncs <= 0x1_0000_0000_0000_0000,
        forall|i: int|
            0 <= i < es.len() ==> (#[trigger] es[i]).name.len() < 0x1_0000_0000_0000_0000 && 0 <= es[
                i
            ].item < nfuncs,
    ensures
        crate::codec::parse_exports(
            crate::codec::exports_bytes(es) + rest,
            es.len(),
            nfuncs,
        ) == Some((es, rest)),
    decreases es.len(),
{
    if es.len() == 0 {
        assert(crate::codec::exports_bytes(es) =~= Seq::<u8>::empty());
        assert(crate::codec::exports_bytes(es) + rest =~= rest);
    } else {
        let tail = crate::codec::exports_bytes(es.skip(1)) + rest;
        assert(crate::codec::exports_bytes(es) + rest =~= crate::codec::export_bytes(es[0]) + tail);
        lemma_parse_export_inv(es[0], tail, nfuncs);
        lemma_parse_exports_inv(es.skip(1), rest, nfuncs);
        assert(seq![es[0]] + es.skip(1) =~= es);
    }
}

/// Decoding inverts encoding for one framed code body.
pub proof fn lemma_parse_body_inv(f: crate::ir::FuncV, rest: Seq<u8>, cfg: ModuleConfig)
    requires
        f.locals.len() < 0x1_0000_0000_0000_0000,
        crate::codec::body_payload(f).len() < 0x1_0000_0000_0000_0000,
        vts_ok(f.locals, cfg),
        canon(f.body, false),
    ensures
        crate::codec::parse_body(crate::codec::body_bytes(f) + rest, cfg) == Some(
            ((f.locals, f.body), rest),
        ),
{
    let pl = crate::codec::body_payload(f);
    let s = crate::codec::body_bytes(f) + rest;
    assert(s =~= uleb(pl.len()) + (pl + rest));
    assert(uleb((pl.len() as u64) as nat) == uleb(pl.len()));
    lemma_u64_round_trip(pl.len() as u64, pl + rest);
    assert((pl + rest).take(pl.len() as int) =~= pl);
    assert((pl + rest).skip(pl.len() as int) =~= rest);
    let ib = crate::codec::instrs_bytes(f.body) + seq![0x0Bu8] + Seq::<u8>::empty();
    assert(pl =~= uleb(f.locals.len()) + (crate::codec::valtypes_bytes(f.locals) + ib));
    assert(uleb((f.locals.len() as u64) as nat) == uleb(f.locals.len()));
    lemma_u64_round_trip(f.locals.len() as u64, crate::codec::valtypes_bytes(f.locals) + ib);
    lemma_parse_valtypes_inv(f.locals, ib, cfg);
    lemma_parse_instrs_inv(f.body, false, Seq::<u8>::empty());
}

/// Decoding inverts encoding for all code bodies, paired with their declared
/// type indices.
pub proof fn lemma_parse_bodies_inv(fs: Seq<crate::ir::FuncV>, rest: Seq<u8>, cfg: ModuleConfig)
    requires
        forall|i: int|
            0 <= i < fs.len() ==> (#[trigger] fs[i]).locals.len() < 0x1_0000_0000_0000_0000
                && crate::codec::body_payload(fs[i]).len() < 0x1_0000_0000_0000_0000 && vts_ok(
                fs[i].locals,
                cfg,
            ) && canon(fs[i].body, false),
    ensures
        crate::codec::parse_bodies(
            crate::codec::bodies_bytes(fs) + rest,
            fs.map_values(|f: crate::ir::FuncV| f.ty),
            cfg,
        ) == Some((fs, rest)),
    decreases fs.len(),
{
    let sv = fs.map_values(|f: crate::ir::FuncV| f.ty);
    if fs.len() == 0 {
        assert(sv =~= Seq::<int>::empty());
        assert(crate::codec::bodies_bytes(fs) =~= Seq::<u8>::empty());
        assert(crate::codec::bodies_bytes(fs) + rest =~= rest);
    } else {
        let tail = crate::codec::bodies_bytes(fs.skip(1)) + rest;
        assert(crate::codec::bodies_bytes(fs) + rest =~= crate::codec::body_bytes(fs[0]) + tail);
        lemma_parse_body_inv(fs[0], tail, cfg);
        lemma_parse_bodies_inv(fs.skip(1), rest, cfg);
        assert(fs.skip(1).map_values(|f: crate::ir::FuncV| f.ty) =~= sv.skip(1));
        assert(crate::ir::FuncV { ty: sv[0], locals: fs[0].locals, body: fs[0].body } == fs[0]);
        assert(seq![fs[0]] + fs.skip(1) =~= fs);
    }
}

/// A framed section parses back to exactly its payload and what follows it.
pub proof fn lemma_frame_section_inv(id: u8, p: Seq<u8>, rest: Seq<u8>)
    requires
        p.len() < 0x1_0000_0000_0000_0000,
    ensures
        (section_bytes(id, p) + rest).len() > 0,
        (section_bytes(id, p) + rest)[0] == id,
        frame_section(section_bytes(id, p) + rest) == Some((p, rest)),
{
    let r = section_bytes(id, p) + rest;
    assert(r[0] == id);
    assert(r.skip(1) =~= uleb(p.len()) + (p + rest));
    assert(uleb((p.len() as u64) as nat) == uleb(p.len()));
    lemma_u64_round_trip(p.len() as u64, p + rest);
    assert((p + rest).take(p.len() as int) =~= p);
    assert((p + rest).skip(p.len() as int) =~= rest);
}

/// Decoding inverts encoding for a run of custom sections: the emitted bytes
/// parse back to exactly the sections that were stored, in order, with their
/// exact names and payloads.
pub proof fn lemma_parse_customs_inv(cs: Seq<CustomV>)
    requires
        forall|i: int| 0 <= i < cs.len() ==> custom_fits(#[trigger] cs[i]),
    ensures
        parse_customs(customs_bytes(cs)) == Some(cs),
    decreases cs.len(),
{
    if cs.len() == 0 {
        assert(customs_bytes(cs) =~= Seq::<u8>::empty());
    } else {
        let c = cs[0];
        let pl = uleb(c.name.len()) + c.name + c.data;
        let tail = customs_bytes(cs.skip(1));
        assert(customs_bytes(cs) == custom_bytes(c) + tail);
        lemma_frame_section_inv(0, pl, tail);
        assert(pl.skip(0) =~= pl);
        assert(pl =~= uleb(c.name.len()) + (c.name + c.data));
        assert(uleb((c.name.len() as u64) as nat) == uleb(c.name.len()));
        lemma_u64_round_trip(c.name.len() as u64, c.name + c.data);
        assert((c.name + c.data).take(c.name.len() as int) =~= c.name);
        assert((c.name + c.data).skip(c.name.len() as int) =~= c.data);
        lemma_parse_customs_inv(cs.skip(1));
        assert(CustomV { name: c.name, data: c.data } == c);
        assert(seq![c] + cs.skip(1) =~= cs);
    }
}

/// Appending the producers entry is idempotent: once a section by that name
/// is stored, a further encode appends no second one.
pub proof fn lemma_emitted_customs_idempotent(cs: Seq<CustomV>, cfg: ModuleConfig)
    ensures
        emitted_customs(emitted_customs(cs, cfg), cfg) == emitted_customs(cs, cfg),
{
    let ec = emitted_customs(cs, cfg);
    if !cfg.skip_producers_section && !has_custom_named(cs, producers_name()) {
        assert(ec.last().name == producers_name());
        assert(has_custom_named(ec, producers_name()));
    }
}

/// Every length the encoder writes fits the 64-bit varint that frames it,
/// every identifier indexes its own arena, every value type is admitted under
/// the configuration, and every body is in canonical form. These are exactly
/// the modules made of recognized constructs that a decoder can be held to.
pub open spec fn encodable(m: ModuleV, cfg: ModuleConfig) -> bool {
    &&& m.types.len() < 0x1_0000_0000_0000_0000
    &&& forall|i: int|
        0 <= i < m.types.len() ==> (#[trigger] m.types[i]).params.len() < 0x1_0000_0000_0000_0000
            && m.types[i].results.len() < 0x1_0000_0000_0000_0000 && vts_ok(m.types[i].params, cfg)
            && vts_ok(m.types[i].results, cfg)
    &&& m.funcs.len() < 0x1_0000_0000_0000_0000
    &&& forall|i: int|
        0 <= i < m.funcs.len() ==> 0 <= (#[trigger] m.funcs[i]).ty < m.types.len() && m.funcs[
            i
        ].locals.len() < 0x1_0000_0000_0000_0000 && crate::codec::body_payload(m.funcs[i]).len()
            < 0x1_0000_0000_0000_0000 && vts_ok(m.funcs[i].locals, cfg) && canon(
            m.funcs[i].body,
            false,
        )
    &&& m.exports.len() < 0x1_0000_0000_0000_0000
    &&& forall|i: int|
        0 <= i < m.exports.len() ==> (#[trigger] m.exports[i]).name.len()
            < 0x1_0000_0000_0000_0000 && 0 <= m.exports[i].item < m.funcs.len()
    &&& forall|i: int| 0 <= i < m.customs.len() ==> custom_fits(#[trigger] m.customs[i])
    &&& (uleb(m.types.len()) + crate::codec::functypes_bytes(m.types)).len()
        < 0x1_0000_0000_0000_0000
    &&& (uleb(m.funcs.len()) + crate::codec::sigs_bytes(m.funcs)).len() < 0x1_0000_0000_0000_0000
    &&& (uleb(m.exports.len()) + crate::codec::exports_bytes(m.exports)).len()
        < 0x1_0000_0000_0000_0000
    &&& (uleb(m.funcs.len()) + crate::codec::bodies_bytes(m.funcs)).len()
        < 0x1_0000_0000_0000_0000
}

/// The type-section stage of the parse inverts its encoding, given that what
/// follows never opens with the type-section identifier.
pub proof fn lemma_types_stage(m: ModuleV, cfg: ModuleConfig, t1: Seq<u8>)
    requires
        encodable(m, cfg),
        t1.len() > 0 ==> t1[0] != 1,
    ensures
        crate::codec::parse_types_opt(crate::codec::type_section(m.types) + t1, cfg) == Some(
            (m.types, t1),
        ),
{
    let tp = uleb(m.types.len()) + crate::codec::functypes_bytes(m.types);
    if m.types.len() > 0 {
        let r0 = crate::codec::type_section(m.types) + t1;
        assert(r0 =~= section_bytes(1, tp) + t1);
        lemma_frame_section_inv(1, tp, t1);
        assert(tp =~= uleb(m.types.len()) + (crate::codec::functypes_bytes(m.types)
            + Seq::<u8>::empty()));
        assert(uleb((m.types.len() as u64) as nat) == uleb(m.types.len()));
        lemma_u64_round_trip(
            m.types.len() as u64,
            crate::codec::functypes_bytes(m.types) + Seq::<u8>::empty(),
        );
        lemma_parse_functypes_inv(m.types, Seq::<u8>::empty(), cfg);
    } else {
        assert(crate::codec::type_section(m.types) =~= Seq::<u8>::empty());
        assert(crate::codec::type_section(m.types) + t1 =~= t1);
        assert(m.types =~= Seq::<crate::ir::FuncTypeV>::empty());
    }
}

/// The function-section stage of the parse inverts its encoding.
pub proof fn lemma_sigs_stage(m: ModuleV, cfg: ModuleConfig, t2: Seq<u8>)
    requires
        encodable(m, cfg),
        t2.len() > 0 ==> t2[0] != 3,
    ensures
        crate::codec::parse_sigs_opt(crate::codec::func_section(m.funcs) + t2, m.types.len())
            == Some((m.funcs.map_values(|f: crate::ir::FuncV| f.ty), t2)),
{
    let sv = m.funcs.map_values(|f: crate::ir::FuncV| f.ty);
    let sp = uleb(m.funcs.len()) + crate::codec::sigs_bytes(m.funcs);
    if m.funcs.len() > 0 {
        let r = crate::codec::func_section(m.funcs) + t2;
        assert(r =~= section_bytes(3, sp) + t2);
        lemma_frame_section_inv(3, sp, t2);
        assert(sp =~= uleb(m.funcs.len()) + (crate::codec::sigs_bytes(m.funcs)
            + Seq::<u8>::empty()));
        assert(uleb((m.funcs.len() as u64) as nat) == uleb(m.funcs.len()));
        lemma_u64_round_trip(
            m.funcs.len() as u64,
            crate::codec::sigs_bytes(m.funcs) + Seq::<u8>::empty(),
        );
        lemma_parse_sigs_inv(m.funcs, Seq::<u8>::empty(), m.types.len());
    } else {
        assert(crate::codec::func_section(m.funcs) =~= Seq::<u8>::empty());
        assert(crate::codec::func_section(m.funcs) + t2 =~= t2);
        assert(sv =~= Seq::<int>::empty());
    }
}

/// The export-section stage of the parse inverts its encoding.
pub proof fn lemma_exports_stage(m: ModuleV, cfg: ModuleConfig, t3: Seq<u8>)
    requires
        encodable(m, cfg),
        t3.len() > 0 ==> t3[0] != 7,
    ensures
        crate::codec::parse_exports_opt(
            crate::codec::export_section(m.exports) + t3,
            m.funcs.len(),
        ) == Some((m.exports, t3)),
{
    let ep = uleb(m.exports.len()) + crate::codec::exports_bytes(m.exports);
    if m.exports.len() > 0 {
        let r = crate::codec::export_section(m.exports) + t3;
        assert(r =~= section_bytes(7, ep) + t3);
        lemma_frame_section_inv(7, ep, t3);
        assert(ep =~= uleb(m.exports.len()) + (crate::codec::exports_bytes(m.exports)
            + Seq::<u8>::empty()));
        assert(uleb((m.exports.len() as u64) as nat) == uleb(m.exports.len()));
        lemma_u64_round_trip(
            m.exports.len() as u64,
            crate::codec::exports_bytes(m.exports) + Seq::<u8>::empty(),
        );
        lemma_parse_exports_inv(m.exports, Seq::<u8>::empty(), m.funcs.len());
    } else {
        assert(crate::codec::export_section(m.exports) =~= Seq::<u8>::empty());
        assert(crate::codec::export_section(m.exports) + t3 =~= t3);
        assert(m.exports =~= Seq::<crate::ir::ExportV>::empty());
    }
}

/// The code-section stage of the parse inverts its encoding.
pub proof fn lemma_code_stage(m: ModuleV, cfg: ModuleConfig, t4: Seq<u8>)
    requires
        encodable(m, cfg),
        t4.len() > 0 ==> t4[0] != 10,
    ensures
        crate::codec::parse_code_opt(
            crate::codec::code_section(m.funcs) + t4,
            m.funcs.map_values(|f: crate::ir::FuncV| f.ty),
            cfg,
        ) == Some((m.funcs, t4)),
{
    let sv = m.funcs.map_values(|f: crate::ir::FuncV| f.ty);
    let cp = uleb(m.funcs.len()) + crate::codec::bodies_bytes(m.funcs);
    if m.funcs.len() > 0 {
        let r = crate::codec::code_section(m.funcs) + t4;
        assert(r =~= section_bytes(10, cp) + t4);
        lemma_frame_section_inv(10, cp, t4);
        assert(cp =~= uleb(m.funcs.len()) + (crate::codec::bodies_bytes(m.funcs)
            + Seq::<u8>::empty()));
        assert(uleb((m.funcs.len() as u64) as nat) == uleb(m.funcs.len()));
        lemma_u64_round_trip(
            m.funcs.len() as u64,
            crate::codec::bodies_bytes(m.funcs) + Seq::<u8>::empty(),
        );
        lemma_parse_bodies_inv(m.funcs, Seq::<u8>::empty(), cfg);
    } else {
        assert(crate::codec::code_section(m.funcs) =~= Seq::<u8>::empty());
        assert(crate::codec::code_section(m.funcs) + t4 =~= t4);
        assert(sv =~= Seq::<int>::empty());
        assert(m.funcs =~= Seq::<crate::ir::FuncV>::empty());
    }
}

/// The module a decode of this module's encoding yields: the same content,
/// with the producers entry appended when the configuration appends one.
pub open spec fn decoded_form(m: ModuleV, cfg: ModuleConfig) -> ModuleV {
    ModuleV {
        types: m.types,
        funcs: m.funcs,
        exports: m.exports,
        customs: emitted_customs(m.customs, cfg),
    }
}

/// Assembles the five stage results into the full parse.
pub proof fn lemma_assemble(
    s: Seq<u8>,
    cfg: ModuleConfig,
    m2: ModuleV,
    t1: Seq<u8>,
    t2: Seq<u8>,
    t3: Seq<u8>,
    t4: Seq<u8>,
)
    requires
        s.len() >= 8,
        s.take(8) == header(),
        crate::codec::parse_types_opt(s.skip(8), cfg) == Some((m2.types, t1)),
        crate::codec::parse_sigs_opt(t1, m2.types.len()) == Some(
            (m2.funcs.map_values(|f: crate::ir::FuncV| f.ty), t2),
        ),
        crate::codec::parse_exports_opt(
            t2,
            m2.funcs.map_values(|f: crate::ir::FuncV| f.ty).len(),
        ) == Some((m2.exports, t3)),
        crate::codec::parse_code_opt(
            t3,
            m2.funcs.map_values(|f: crate::ir::FuncV| f.ty),
            cfg,
        ) == Some((m2.funcs, t4)),
        parse_customs(t4) == Some(m2.customs),
        cfg.skip_strict_validate || strict_ok(m2),
    ensures
        parse_spec(s, cfg) == Some(m2),
{
    assert(ModuleV {
        types: m2.types,
        funcs: m2.funcs,
        exports: m2.exports,
        customs: m2.customs,
    } == m2);
}

/// Every emitted custom section fits its frame when the stored ones do.
pub proof fn lemma_emitted_fits(cs: Seq<CustomV>, cfg: ModuleConfig)
    requires
        forall|i: int| 0 <= i < cs.len() ==> custom_fits(#[trigger] cs[i]),
    ensures
        forall|i: int|
            0 <= i < emitted_customs(cs, cfg).len() ==> custom_fits(
                #[trigger] emitted_customs(cs, cfg)[i],
            ),
{
    let ec = emitted_customs(cs, cfg);
    assert forall|i: int| 0 <= i < ec.len() implies custom_fits(#[trigger] ec[i]) by {
        if i >= cs.len() {
            let c = CustomV { name: producers_name(), data: crate::codec::producers_data() };
            assert(ec[i] == c);
            assert(c.name.len() == 9);
            assert(uleb(9).len() == 1);
            assert(c.data.len() == 6);
        }
    }
}

/// The first byte of each encoded tail: what follows a stage never opens with
/// an earlier stage's section identifier.
proof fn lemma_tail_heads(m: ModuleV, cfg: ModuleConfig)
    requires
        encodable(m, cfg),
    ensures
        ({
            let t4 = customs_bytes(emitted_customs(m.customs, cfg));
            let t3 = crate::codec::code_section(m.funcs) + t4;
            let t2 = crate::codec::export_section(m.exports) + t3;
            let t1 = crate::codec::func_section(m.funcs) + t2;
            &&& (t4.len() > 0 ==> t4[0] == 0)
            &&& (t3.len() > 0 ==> t3[0] == 10 || t3[0] == 0)
            &&& (t2.len() > 0 ==> t2[0] == 7 || t2[0] == 10 || t2[0] == 0)
            &&& (t1.len() > 0 ==> t1[0] == 3 || t1[0] == 7 || t1[0] == 10 || t1[0] == 0)
        }),
{
    let ec = emitted_customs(m.customs, cfg);
    lemma_emitted_fits(m.customs, cfg);
    let t4 = customs_bytes(ec);
    let t3 = crate::codec::code_section(m.funcs) + t4;
    let t2 = crate::codec::export_section(m.exports) + t3;
    let t1 = crate::codec::func_section(m.funcs) + t2;
    if ec.len() > 0 {
        let c0 = ec[0];
        lemma_frame_section_inv(
            0,
            uleb(c0.name.len()) + c0.name + c0.data,
            customs_bytes(ec.skip(1)),
        );
        assert(t4 =~= custom_bytes(c0) + customs_bytes(ec.skip(1)));
        assert(t4[0] == 0);
    }
    if m.funcs.len() > 0 {
        let cp = uleb(m.funcs.len()) + crate::codec::bodies_bytes(m.funcs);
        lemma_frame_section_inv(10, cp, t4);
        assert(t3 =~= section_bytes(10, cp) + t4);
        assert(t3[0] == 10);
    } else {
        assert(crate::codec::code_section(m.funcs) =~= Seq::<u8>::empty());
        assert(t3 =~= t4);
    }
    if m.exports.len() > 0 {
        let ep = uleb(m.exports.len()) + crate::codec::exports_bytes(m.exports);
        lemma_frame_section_inv(7, ep, t3);
        assert(t2 =~= section_bytes(7, ep) + t3);
        assert(t2[0] == 7);
    } else {
        assert(crate::codec::export_section(m.exports) =~= Seq::<u8>::empty());
        assert(t2 =~= t3);
    }
    if m.funcs.len() > 0 {
        let sp = uleb(m.funcs.len()) + crate::codec::sigs_bytes(m.funcs);
        lemma_frame_section_inv(3, sp, t2);
        assert(t1 =~= section_bytes(3, sp) + t2);
        assert(t1[0] == 3);
    } else {
        assert(crate::codec::func_section(m.funcs) =~= Seq::<u8>::empty());
        assert(t1 =~= t2);
    }
}

/// Decoding the encoded bytes of an encodable module succeeds and yields its
/// decoded form.
#[verifier::rlimit(100)]
#[verifier::spinoff_prover]
proof fn lemma_parse_of_emit(m: ModuleV, cfg: ModuleConfig)
    requires
        encodable(m, cfg),
        !cfg.skip_strict_validate ==> strict_ok(m),
    ensures
        parse_spec(emit_spec(m, cfg), cfg) == Some(decoded_form(m, cfg)),
{
    let ec = emitted_customs(m.customs, cfg);
    lemma_emitted_fits(m.customs, cfg);
    let t4 = customs_bytes(ec);
    let t3 = crate::codec::code_section(m.funcs) + t4;
    let t2 = crate::codec::export_section(m.exports) + t3;
    let t1 = crate::codec::func_section(m.funcs) + t2;
    let s = emit_spec(m, cfg);
    assert(s =~= header() + (crate::codec::type_section(m.types) + t1));
    lemma_tail_heads(m, cfg);
    // Header.
    assert(s.len() >= 8);
    assert(s.take(8) =~= header());
    assert(s.skip(8) =~= crate::codec::type_section(m.types) + t1);
    // The four staged sections, then the custom sections.
    lemma_types_stage(m, cfg, t1);
    lemma_sigs_stage(m, cfg, t2);
    lemma_exports_stage(m, cfg, t3);
    lemma_code_stage(m, cfg, t4);
    let sv = m.funcs.map_values(|f: crate::ir::FuncV| f.ty);
    assert(sv.len() == m.funcs.len());
    lemma_parse_customs_inv(ec);
    // Strict validation and assembly.
    let m2 = decoded_form(m, cfg);
    assert(strict_ok(m2) == strict_ok(m));
    lemma_assemble(s, cfg, m2, t1, t2, t3, t4);
}

/// Re-encoding the decoded form reproduces the original bytes: the arenas are
/// unchanged and appending the producers entry is idempotent.
proof fn lemma_emit_of_decoded(m: ModuleV, cfg: ModuleConfig)
    ensures
        emit_spec(decoded_form(m, cfg), cfg) == emit_spec(m, cfg),
{
    lemma_emitted_customs_idempotent(m.customs, cfg);
    assert(emit_spec(decoded_form(m, cfg), cfg) =~= emit_spec(m, cfg));
}

/// Round-trip fidelity: for any encodable module, held to strict validation
/// when the configuration asks for it, decoding the encoded bytes yields a
/// module with the same types, functions and exports and the emitted custom
/// sections, and encoding that module again yields byte-for-byte the same
/// output. In particular `encode(decode(encode(m))) == encode(m)` with the
/// configuration held fixed and no mutation in between.
pub proof fn round_trip_fidelity(m: ModuleV, cfg: ModuleConfig)
    requires
        encodable(m, cfg),
        !cfg.skip_strict_validate ==> strict_ok(m),
    ensures
        parse_spec(emit_spec(m, cfg), cfg) == Some(decoded_form(m, cfg)),
        emit_spec(decoded_form(m, cfg), cfg) == emit_spec(m, cfg),
{
    lemma_parse_of_emit(m, cfg);
    lemma_emit_of_decoded(m, cfg);
}

/// A name-free scan finds an appended section: when no stored section carries
/// `n`, the first section named `n` after appending one is that one, even
/// after further sections with other names are appended.
pub proof fn lemma_first_named_after(cs1: Seq<CustomV>, c: CustomV, cs2: Seq<CustomV>, n: Seq<u8>)
    requires
        !has_custom_named(cs1, n),
        c.name == n,
    ensures
        first_named(cs1 + (seq![c] + cs2), n) == Some(c),
    decreases cs1.len(),
{
    let all = cs1 + (seq![c] + cs2);
    if cs1.len() == 0 {
        assert(all[0] == c);
    } else {
        assert(all[0] == cs1[0]);
        assert(cs1[0].name != n);
        assert(all.skip(1) =~= cs1.skip(1) + (seq![c] + cs2));
        assert(!has_custom_named(cs1.skip(1), n)) by {
            if has_custom_named(cs1.skip(1), n) {
                let w = choose|w: int|
                    0 <= w < cs1.skip(1).len() && (#[trigger] cs1.skip(1)[w]).name == n;
                assert(cs1[w + 1].name == n);
            }
        }
        lemma_first_named_after(cs1.skip(1), c, cs2, n);
    }
}

/// Unknown-section losslessness: add a custom section to an encodable module,
/// encode, and decode the result; the first section found under that name
/// carries exactly the byte payload that was added.
pub proof fn unknown_section_losslessness(
    m: ModuleV,
    cfg: ModuleConfig,
    name: Seq<u8>,
    data: Seq<u8>,
)
    requires
        encodable(m, cfg),
        !cfg.skip_strict_validate ==> strict_ok(m),
        custom_fits(CustomV { name, data }),
        !has_custom_named(m.customs, name),
        name != producers_name(),
    ensures
        parse_spec(
            emit_spec(
                ModuleV {
                    types: m.types,
                    funcs: m.funcs,
                    exports: m.exports,
                    customs: m.customs.push(CustomV { name, data }),
                },
                cfg,
            ),
            cfg,
        ) matches Some(m2) && first_named(m2.customs, name) == Some(CustomV { name, data }),
{
    let c = CustomV { name, data };
    let m1 = ModuleV {
        types: m.types,
        funcs: m.funcs,
        exports: m.exports,
        customs: m.customs.push(c),
    };
    assert(encodable(m1, cfg));
    assert(strict_ok(m1) == strict_ok(m));
    round_trip_fidelity(m1, cfg);
    let ec = emitted_customs(m1.customs, cfg);
    if cfg.skip_producers_section || has_custom_named(m1.customs, producers_name()) {
        assert(ec =~= m.customs + (seq![c] + Seq::<CustomV>::empty()));
        lemma_first_named_after(m.customs, c, Seq::<CustomV>::empty(), name);
    } else {
        let p = CustomV { name: producers_name(), data: crate::codec::producers_data() };
        assert(ec =~= m.customs + (seq![c] + seq![p]));
        lemma_first_named_after(m.customs, c, seq![p], name);
    }
}

} // verus!
