//! The in-memory intermediate representation: typed value kinds, arenas of
//! function types, functions and exports, the expression tree of a function
//! body, and the builder that grows it.
//!
//! Every arena is append-only and yields a stable, typed identifier on
//! insertion; mutation never renumbers existing entries. A function body is a
//! tree: the entry block holds an ordered list of root expression identifiers,
//! and a `Drop` node owns the identifier of the expression it discards. The
//! observable content of a body is its flattening: the instruction sequence
//! obtained by walking each root in post order.

use vstd::prelude::*;

verus! {

use vstd::string::StringSliceAdditionalSpecFns;
use vstd::string::StrSliceExecFns;

/// A value type of the format. `V128` is not part of the finalized format and
/// is rejected during decode when `only_stable_features` is set.
#[derive(Clone, Copy, Debug, PartialEq, Eq, Structural)]
pub enum ValType {
    I32,
    I64,
    F32,
    F64,
    V128,
}

/// Identifier of a function type within one module's type arena.
#[derive(Clone, Copy, Debug, PartialEq, Eq, Structural)]
pub struct TypeId {
    pub index: usize,
}

/// Identifier of a function within one module's function arena.
#[derive(Clone, Copy, Debug, PartialEq, Eq, Structural)]
pub struct FunctionId {
    pub index: usize,
}

/// Identifier of an expression within one function's expression arena.
#[derive(Clone, Copy, Debug, PartialEq, Eq, Structural)]
pub struct ExprId {
    pub index: usize,
}

/// Identifier of an export within one module's export arena.
#[derive(Clone, Copy, Debug, PartialEq, Eq, Structural)]
pub struct ExportId {
    pub index: usize,
}

/// A function type: parameter types and result types.
#[derive(Debug)]
pub struct FuncType {
    pub params: Vec<ValType>,
    pub results: Vec<ValType>,
}

/// Mathematical content of a function type.
pub ghost struct FuncTypeV {
    pub params: Seq<ValType>,
    pub results: Seq<ValType>,
}

impl View for FuncType {
    type V = FuncTypeV;

    open spec fn view(&self) -> FuncTypeV {
        FuncTypeV { params: self.params@, results: self.results@ }
    }
}

/// One instruction of the flat, observable form of a function body.
#[derive(Clone, Copy, Debug, PartialEq, Eq, Structural)]
pub enum Instr {
    /// Pushes a 32-bit constant, given by its bit pattern.
    I32Const(u32),
    /// Discards the value produced by the preceding producer.
    Drop,
}

/// An expression node of the tree form: a constant leaf, or a discard owning
/// the expression whose value it consumes.
#[derive(Clone, Copy, Debug, PartialEq, Eq, Structural)]
pub enum Expr {
    I32Const(u32),
    Drop(ExprId),
}

/// An arena slot: the expression and, when the function was decoded from
/// bytes, the byte offset of its instruction in the original input.
#[derive(Clone, Copy, Debug, PartialEq, Eq, Structural)]
pub struct ExprData {
    pub expr: Expr,
    pub offset: Option<usize>,
}

/// Arena well-formedness: every `Drop` owns an expression built before it, so
/// the tree is acyclic and flattening terminates.
pub open spec fn exprs_wf(exprs: Seq<ExprData>) -> bool {
    forall|j: int|
        0 <= j < exprs.len() ==> (#[trigger] exprs[j].expr matches Expr::Drop(c) ==> c.index < j)
}

/// Post-order flattening of the subtree rooted at arena index `i`: each
/// element is an instruction paired with its recorded original offset.
pub open spec fn flat_expr(exprs: Seq<ExprData>, i: int) -> Seq<(Instr, Option<usize>)>
    decreases i when exprs_wf(exprs) && 0 <= i < exprs.len()
{
    match exprs[i].expr {
        Expr::I32Const(v) => seq![(Instr::I32Const(v), exprs[i].offset)],
        Expr::Drop(c) => flat_expr(exprs, c.index as int) + seq![(Instr::Drop, exprs[i].offset)],
    }
}

/// Flattening of a list of roots, in list order.
pub open spec fn flat_list(exprs: Seq<ExprData>, entry: Seq<ExprId>) -> Seq<(Instr, Option<usize>)>
    decreases entry.len(),
{
    if entry.len() == 0 {
        Seq::empty()
    } else {
        flat_expr(exprs, entry[0].index as int) + flat_list(exprs, entry.skip(1))
    }
}

/// The instructions of a flattening, offsets stripped.
pub open spec fn instrs_of(fl: Seq<(Instr, Option<usize>)>) -> Seq<Instr> {
    fl.map_values(|p: (Instr, Option<usize>)| p.0)
}

/// The recorded original offsets of a flattening, in flattening order.
pub open spec fn offs(fl: Seq<(Instr, Option<usize>)>) -> Seq<usize>
    decreases fl.len(),
{
    if fl.len() == 0 {
        Seq::empty()
    } else {
        (match fl[0].1 {
            Some(o) => seq![o],
            None => Seq::<usize>::empty(),
        }) + offs(fl.skip(1))
    }
}

/// Non-decreasing sequence of offsets.
pub open spec fn sorted(s: Seq<usize>) -> bool {
    forall|i: int, j: int| 0 <= i <= j < s.len() ==> s[i] <= s[j]
}

/// Flattening a single root is flattening its subtree.
pub proof fn lemma_flat_list_single(exprs: Seq<ExprData>, e: ExprId)
    ensures
        flat_list(exprs, seq![e]) == flat_expr(exprs, e.index as int),
{
    assert(seq![e].skip(1) =~= Seq::<ExprId>::empty());
    assert(flat_list(exprs, Seq::<ExprId>::empty()) =~= Seq::<(Instr, Option<usize>)>::empty());
    assert(flat_list(exprs, seq![e]) =~= flat_expr(exprs, e.index as int));
}

/// The offsets of a one-instruction flattening.
pub proof fn lemma_offs_single(p: (Instr, Option<usize>))
    ensures
        offs(seq![p]) == (match p.1 {
            Some(o) => seq![o],
            None => Seq::<usize>::empty(),
        }),
{
    assert(seq![p].skip(1) =~= Seq::<(Instr, Option<usize>)>::empty());
    assert(offs(Seq::<(Instr, Option<usize>)>::empty()) =~= Seq::<usize>::empty());
    assert(offs(seq![p]) =~= (match p.1 {
        Some(o) => seq![o],
        None => Seq::<usize>::empty(),
    }));
}

/// Appending a fresh node to the arena does not change the flattening of any
/// existing subtree.
pub proof fn lemma_flat_expr_push(exprs: Seq<ExprData>, x: ExprData, i: int)
    requires
        exprs_wf(exprs),
        exprs_wf(exprs.push(x)),
        0 <= i < exprs.len(),
    ensures
        flat_expr(exprs.push(x), i) == flat_expr(exprs, i),
    decreases i,
{
    assert(exprs.push(x)[i] == exprs[i]);
    match exprs[i].expr {
        Expr::I32Const(_) => {},
        Expr::Drop(c) => {
            lemma_flat_expr_push(exprs, x, c.index as int);
        },
    }
}

/// Appending a fresh node to the arena does not change the flattening of an
/// existing root list.
pub proof fn lemma_flat_list_push(exprs: Seq<ExprData>, x: ExprData, entry: Seq<ExprId>)
    requires
        exprs_wf(exprs),
        exprs_wf(exprs.push(x)),
        forall|k: int| 0 <= k < entry.len() ==> (#[trigger] entry[k]).index < exprs.len(),
    ensures
        flat_list(exprs.push(x), entry) == flat_list(exprs, entry),
    decreases entry.len(),
{
    if entry.len() > 0 {
        lemma_flat_expr_push(exprs, x, entry[0].index as int);
        lemma_flat_list_push(exprs, x, entry.skip(1));
    }
}

/// Flattening distributes over concatenation of root lists.
pub proof fn lemma_flat_list_concat(exprs: Seq<ExprData>, a: Seq<ExprId>, b: Seq<ExprId>)
    ensures
        flat_list(exprs, a + b) == flat_list(exprs, a) + flat_list(exprs, b),
    decreases a.len(),
{
    if a.len() == 0 {
        assert(a + b =~= b);
        assert(flat_list(exprs, a) + flat_list(exprs, b) =~= flat_list(exprs, b));
    } else {
        lemma_flat_list_concat(exprs, a.skip(1), b);
        assert((a + b).skip(1) =~= a.skip(1) + b);
        assert(flat_expr(exprs, a[0].index as int) + (flat_list(exprs, a.skip(1)) + flat_list(
            exprs,
            b,
        )) =~= (flat_expr(exprs, a[0].index as int) + flat_list(exprs, a.skip(1))) + flat_list(
            exprs,
            b,
        ));
    }
}

/// Offsets distribute over concatenation of flattenings.
pub proof fn lemma_offs_concat(a: Seq<(Instr, Option<usize>)>, b: Seq<(Instr, Option<usize>)>)
    ensures
        offs(a + b) == offs(a) + offs(b),
    decreases a.len(),
{
    if a.len() == 0 {
        assert(a + b =~= b);
        assert(offs(a) + offs(b) =~= offs(b));
    } else {
        lemma_offs_concat(a.skip(1), b);
        assert((a + b).skip(1) =~= a.skip(1) + b);
        assert((a + b)[0] == a[0]);
        assert(offs(a + b) =~= offs(a) + offs(b));
    }
}

/// The recorded original offsets of a whole function list, in emission order:
/// function by function, each body in flattening order.
pub open spec fn all_offs(fs: Seq<LocalFunction>) -> Seq<usize>
    decreases fs.len(),
{
    if fs.len() == 0 {
        Seq::empty()
    } else {
        fs[0].in_offsets() + all_offs(fs.skip(1))
    }
}

/// Replacing a function with one whose recorded offsets are unchanged leaves
/// the module's offset sequence unchanged.
pub proof fn lemma_all_offs_update(fs: Seq<LocalFunction>, i: int, x: LocalFunction)
    requires
        0 <= i < fs.len(),
        x.in_offsets() == fs[i].in_offsets(),
    ensures
        all_offs(fs.update(i, x)) == all_offs(fs),
    decreases fs.len(),
{
    if i == 0 {
        assert(fs.update(0, x)[0] == x);
        assert(fs.update(0, x).skip(1) =~= fs.skip(1));
    } else {
        assert(fs.update(i, x)[0] == fs[0]);
        assert(fs.update(i, x).skip(1) =~= fs.skip(1).update(i - 1, x));
        lemma_all_offs_update(fs.skip(1), i - 1, x);
    }
}

/// Appending a function appends its recorded offsets.
pub proof fn lemma_all_offs_push(fs: Seq<LocalFunction>, x: LocalFunction)
    ensures
        all_offs(fs.push(x)) == all_offs(fs) + x.in_offsets(),
    decreases fs.len(),
{
    if fs.len() == 0 {
        assert(fs.push(x)[0] == x);
        assert(fs.push(x).skip(1) =~= Seq::<LocalFunction>::empty());
        assert(all_offs(Seq::<LocalFunction>::empty()) =~= Seq::<usize>::empty());
        assert(all_offs(fs) + x.in_offsets() =~= x.in_offsets());
        assert(all_offs(fs.push(x)) =~= x.in_offsets());
    } else {
        assert(fs.push(x)[0] == fs[0]);
        assert(fs.push(x).skip(1) =~= fs.skip(1).push(x));
        lemma_all_offs_push(fs.skip(1), x);
        assert(fs[0].in_offsets() + (all_offs(fs.skip(1)) + x.in_offsets()) =~= (fs[0].in_offsets()
            + all_offs(fs.skip(1))) + x.in_offsets());
    }
}

/// A subtree of offset-free nodes flattens to an offset-free sequence.
pub proof fn lemma_offs_none_expr(exprs: Seq<ExprData>, i: int)
    requires
        exprs_wf(exprs),
        0 <= i < exprs.len(),
        forall|j: int| 0 <= j < exprs.len() ==> (#[trigger] exprs[j]).offset is None,
    ensures
        offs(flat_expr(exprs, i)) == Seq::<usize>::empty(),
    decreases i,
{
    match exprs[i].expr {
        Expr::I32Const(v) => {
            lemma_offs_single((Instr::I32Const(v), exprs[i].offset));
        },
        Expr::Drop(c) => {
            lemma_offs_none_expr(exprs, c.index as int);
            lemma_offs_concat(flat_expr(exprs, c.index as int), seq![(Instr::Drop, exprs[i].offset)]);
            lemma_offs_single((Instr::Drop, exprs[i].offset));
            assert(offs(flat_expr(exprs, i)) =~= Seq::<usize>::empty());
        },
    }
}

/// A root list of offset-free nodes flattens to an offset-free sequence.
pub proof fn lemma_offs_none_list(exprs: Seq<ExprData>, entry: Seq<ExprId>)
    requires
        exprs_wf(exprs),
        forall|k: int| 0 <= k < entry.len() ==> (#[trigger] entry[k]).index < exprs.len(),
        forall|j: int| 0 <= j < exprs.len() ==> (#[trigger] exprs[j]).offset is None,
    ensures
        offs(flat_list(exprs, entry)) == Seq::<usize>::empty(),
    decreases entry.len(),
{
    if entry.len() == 0 {
        assert(offs(flat_list(exprs, entry)) =~= Seq::<usize>::empty());
    } else {
        lemma_offs_none_expr(exprs, entry[0].index as int);
        lemma_offs_none_list(exprs, entry.skip(1));
        lemma_offs_concat(flat_expr(exprs, entry[0].index as int), flat_list(exprs, entry.skip(1)));
        assert(offs(flat_list(exprs, entry)) =~= Seq::<usize>::empty());
    }
}

/// A function owned by the module's function arena: its declared type, its
/// local variable declarations, the expression arena, and the entry block's
/// ordered root list.
#[derive(Debug)]
pub struct LocalFunction {
    pub ty: TypeId,
    pub locals: Vec<ValType>,
    pub exprs: Vec<ExprData>,
    pub entry: Vec<ExprId>,
}

/// Mathematical content of a function: type index, locals, and the flat
/// instruction sequence of its body.
pub ghost struct FuncV {
    pub ty: int,
    pub locals: Seq<ValType>,
    pub body: Seq<Instr>,
}

impl View for LocalFunction {
    type V = FuncV;

    open spec fn view(&self) -> FuncV {
        FuncV { ty: self.ty.index as int, locals: self.locals@, body: instrs_of(self.flat()) }
    }
}

impl LocalFunction {
    /// The flattening of the whole body, offsets included.
    pub open spec fn flat(self) -> Seq<(Instr, Option<usize>)> {
        flat_list(self.exprs@, self.entry@)
    }

    /// The recorded original offsets of the body, in emission order.
    pub open spec fn in_offsets(self) -> Seq<usize> {
        offs(self.flat())
    }

    /// Structural well-formedness: acyclic arena, entry roots in range.
    pub open spec fn wf(self) -> bool {
        &&& exprs_wf(self.exprs@)
        &&& forall|k: int|
            0 <= k < self.entry@.len() ==> (#[trigger] self.entry@[k]).index < self.exprs@.len()
    }

    /// Every discard owns a producer: the canonical form that encoding and
    /// decoding preserve exactly.
    pub open spec fn wf_typed(self) -> bool {
        forall|j: int|
            0 <= j < self.exprs@.len() ==> (#[trigger] self.exprs@[j].expr matches Expr::Drop(c)
                ==> self.exprs@[c.index as int].expr is I32Const)
    }

    /// The declared type of this function.
    pub fn ty(&self) -> (r: TypeId)
        ensures
            r == self.ty,
    {
        self.ty
    }

    /// Adds a fresh constant-producing node to the arena and returns its
    /// identifier. The entry block, the body, and all existing identifiers are
    /// unchanged.
    pub fn i32_const(&mut self, value: u32) -> (r: ExprId)
        requires
            old(self).wf(),
        ensures
            final(self).wf(),
            r.index == old(self).exprs@.len(),
            final(self).exprs@ == old(self).exprs@.push(
                ExprData { expr: Expr::I32Const(value), offset: None },
            ),
            final(self).entry == old(self).entry,
            final(self).ty == old(self).ty,
            final(self).locals == old(self).locals,
            final(self).flat() == old(self).flat(),
            offs(flat_expr(final(self).exprs@, r.index as int)) == Seq::<usize>::empty(),
    {
        let id = ExprId { index: self.exprs.len() };
        let x = ExprData { expr: Expr::I32Const(value), offset: None };
        self.exprs.push(x);
        proof {
            lemma_flat_list_push(old(self).exprs@, x, old(self).entry@);
            let sub = flat_expr(self.exprs@, id.index as int);
            assert(sub =~= seq![(Instr::I32Const(value), None::<usize>)]);
            lemma_offs_single((Instr::I32Const(value), None::<usize>));
            assert(offs(sub) =~= Seq::<usize>::empty());
        }
        id
    }

    /// Adds a fresh discard node owning `operand` and returns its identifier.
    /// The entry block, the body, and all existing identifiers are unchanged.
    pub fn drop_expr(&mut self, operand: ExprId) -> (r: ExprId)
        requires
            old(self).wf(),
            operand.index < old(self).exprs@.len(),
        ensures
            final(self).wf(),
            r.index == old(self).exprs@.len(),
            final(self).exprs@ == old(self).exprs@.push(
                ExprData { expr: Expr::Drop(operand), offset: None },
            ),
            final(self).entry == old(self).entry,
            final(self).ty == old(self).ty,
            final(self).locals == old(self).locals,
            final(self).flat() == old(self).flat(),
            offs(flat_expr(old(self).exprs@, operand.index as int)).len() == 0 ==> offs(
                flat_expr(final(self).exprs@, r.index as int),
            ) == Seq::<usize>::empty(),
    {
        let id = ExprId { index: self.exprs.len() };
        let x = ExprData { expr: Expr::Drop(operand), offset: None };
        self.exprs.push(x);
        proof {
            lemma_flat_list_push(old(self).exprs@, x, old(self).entry@);
            lemma_flat_expr_push(old(self).exprs@, x, operand.index as int);
            if offs(flat_expr(old(self).exprs@, operand.index as int)).len() == 0 {
                let sub = flat_expr(self.exprs@, id.index as int);
                assert(sub == flat_expr(old(self).exprs@, operand.index as int) + seq![
                    (Instr::Drop, None::<usize>),
                ]);
                lemma_offs_concat(
                    flat_expr(old(self).exprs@, operand.index as int),
                    seq![(Instr::Drop, None::<usize>)],
                );
                lemma_offs_single((Instr::Drop, None::<usize>));
                assert(offs(sub) =~= Seq::<usize>::empty());
            }
        }
        id
    }

    /// Inserts root `e` at position `index` of the entry block. Existing roots
    /// keep their order, so instructions that carry original offsets keep
    /// their relative order; the inserted subtree must carry none, as freshly
    /// built instrumentation does.
    pub fn insert_in_entry(&mut self, index: usize, e: ExprId)
        requires
            old(self).wf(),
            index <= old(self).entry@.len(),
            e.index < old(self).exprs@.len(),
            offs(flat_expr(old(self).exprs@, e.index as int)).len() == 0,
        ensures
            final(self).wf(),
            final(self).entry@ == old(self).entry@.insert(index as int, e),
            final(self).exprs == old(self).exprs,
            final(self).ty == old(self).ty,
            final(self).locals == old(self).locals,
            final(self).in_offsets() == old(self).in_offsets(),
    {
        self.entry.insert(index, e);
        proof {
            let es = self.exprs@;
            let pre = old(self).entry@.take(index as int);
            let post = old(self).entry@.skip(index as int);
            let sub = flat_expr(es, e.index as int);
            assert(old(self).entry@ =~= pre + post);
            assert(self.entry@ =~= pre + (seq![e] + post));
            lemma_flat_list_concat(es, pre, post);
            lemma_flat_list_concat(es, pre, seq![e] + post);
            lemma_flat_list_concat(es, seq![e], post);
            lemma_flat_list_single(es, e);
            lemma_offs_concat(flat_list(es, pre), flat_list(es, post));
            lemma_offs_concat(sub, flat_list(es, post));
            lemma_offs_concat(flat_list(es, pre), sub + flat_list(es, post));
            assert(offs(sub) =~= Seq::<usize>::empty());
            assert(final(self).in_offsets() =~= old(self).in_offsets());
        }
    }
}

/// The append-only arena of function types.
#[derive(Debug)]
pub struct ModuleTypes {
    pub list: Vec<FuncType>,
}

impl View for ModuleTypes {
    type V = Seq<FuncTypeV>;

    open spec fn view(&self) -> Seq<FuncTypeV> {
        self.list@.map_values(|t: FuncType| t@)
    }
}

impl ModuleTypes {
    /// Adds a function type and returns its fresh identifier.
    pub fn add(&mut self, params: Vec<ValType>, results: Vec<ValType>) -> (r: TypeId)
        ensures
            r.index == old(self)@.len(),
            final(self)@ == old(self)@.push(FuncTypeV { params: params@, results: results@ }),
    {
        let id = TypeId { index: self.list.len() };
        self.list.push(FuncType { params, results });
        proof {
            assert(final(self)@ =~= old(self)@.push(
                FuncTypeV { params: params@, results: results@ },
            ));
        }
        id
    }

    /// The number of types in the arena.
    pub fn len(&self) -> (r: usize)
        ensures
            r == self@.len(),
    {
        self.list.len()
    }

    /// Looks up a type by identifier.
    pub fn get(&self, id: TypeId) -> (r: &FuncType)
        requires
            id.index < self@.len(),
        ensures
            r@ == self@[id.index as int],
    {
        &self.list[id.index]
    }
}

/// The append-only arena of functions.
#[derive(Debug)]
pub struct ModuleFunctions {
    pub list: Vec<LocalFunction>,
}

impl View for ModuleFunctions {
    type V = Seq<FuncV>;

    open spec fn view(&self) -> Seq<FuncV> {
        self.list@.map_values(|f: LocalFunction| f@)
    }
}

impl ModuleFunctions {
    /// Structural well-formedness of every function in the arena.
    pub open spec fn wf(self) -> bool {
        forall|i: int| 0 <= i < self.list@.len() ==> (#[trigger] self.list@[i]).wf()
    }

    /// The number of functions in the arena.
    pub fn len(&self) -> (r: usize)
        ensures
            r == self@.len(),
    {
        self.list.len()
    }

    /// Looks up a function by identifier.
    pub fn get(&self, id: FunctionId) -> (r: &LocalFunction)
        requires
            id.index < self@.len(),
        ensures
            r == self.list@[id.index as int],
    {
        &self.list[id.index]
    }

    /// Adds a fresh constant-producing node to the arena of function `f` and
    /// returns its identifier; the body and every other function are
    /// unchanged.
    pub fn i32_const(&mut self, f: FunctionId, value: u32) -> (r: ExprId)
        requires
            old(self).wf(),
            f.index < old(self).list@.len(),
        ensures
            final(self).wf(),
            r.index == old(self).list@[f.index as int].exprs@.len(),
            final(self).list@.len() == old(self).list@.len(),
            forall|j: int|
                0 <= j < old(self).list@.len() && j != f.index as int ==> final(self).list@[j]
                    == old(self).list@[j],
            final(self).list@[f.index as int].ty == old(self).list@[f.index as int].ty,
            final(self).list@[f.index as int].locals == old(self).list@[f.index as int].locals,
            final(self).list@[f.index as int].entry == old(self).list@[f.index as int].entry,
            final(self).list@[f.index as int].exprs@ == old(self).list@[f.index as int].exprs@.push(
                ExprData { expr: Expr::I32Const(value), offset: None },
            ),
            final(self)@ == old(self)@,
            all_offs(final(self).list@) == all_offs(old(self).list@),
            offs(
                flat_expr(final(self).list@[f.index as int].exprs@, r.index as int),
            ) == Seq::<usize>::empty(),
    {
        let mut func = self.list.remove(f.index);
        let id = func.i32_const(value);
        let ghost fv = func;
        self.list.insert(f.index, func);
        proof {
            assert(self.list@ =~= old(self).list@.update(f.index as int, fv));
            lemma_all_offs_update(old(self).list@, f.index as int, fv);
            assert(final(self)@ =~= old(self)@);
        }
        id
    }

    /// Adds a fresh discard node owning `operand` to the arena of function `f`
    /// and returns its identifier; the body and every other function are
    /// unchanged.
    pub fn drop_expr(&mut self, f: FunctionId, operand: ExprId) -> (r: ExprId)
        requires
            old(self).wf(),
            f.index < old(self).list@.len(),
            operand.index < old(self).list@[f.index as int].exprs@.len(),
        ensures
            final(self).wf(),
            r.index == old(self).list@[f.index as int].exprs@.len(),
            final(self).list@.len() == old(self).list@.len(),
            forall|j: int|
                0 <= j < old(self).list@.len() && j != f.index as int ==> final(self).list@[j]
                    == old(self).list@[j],
            final(self).list@[f.index as int].ty == old(self).list@[f.index as int].ty,
            final(self).list@[f.index as int].locals == old(self).list@[f.index as int].locals,
            final(self).list@[f.index as int].entry == old(self).list@[f.index as int].entry,
            final(self).list@[f.index as int].exprs@ == old(self).list@[f.index as int].exprs@.push(
                ExprData { expr: Expr::Drop(operand), offset: None },
            ),
            final(self)@ == old(self)@,
            all_offs(final(self).list@) == all_offs(old(self).list@),
            offs(
                flat_expr(old(self).list@[f.index as int].exprs@, operand.index as int),
            ).len() == 0 ==> offs(
                flat_expr(final(self).list@[f.index as int].exprs@, r.index as int),
            ) == Seq::<usize>::empty(),
    {
        let mut func = self.list.remove(f.index);
        let id = func.drop_expr(operand);
        let ghost fv = func;
        self.list.insert(f.index, func);
        proof {
            assert(self.list@ =~= old(self).list@.update(f.index as int, fv));
            lemma_all_offs_update(old(self).list@, f.index as int, fv);
            assert(final(self)@ =~= old(self)@);
        }
        id
    }

    /// Inserts root `e` at position `index` of the entry block of function
    /// `f`; the inserted subtree must carry no original offsets, as freshly
    /// built instrumentation does. Existing roots keep their order and every
    /// identifier stays valid.
    pub fn insert_in_entry(&mut self, f: FunctionId, index: usize, e: ExprId)
        requires
            old(self).wf(),
            f.index < old(self).list@.len(),
            index <= old(self).list@[f.index as int].entry@.len(),
            e.index < old(self).list@[f.index as int].exprs@.len(),
            offs(flat_expr(old(self).list@[f.index as int].exprs@, e.index as int)).len() == 0,
        ensures
            final(self).wf(),
            final(self).list@.len() == old(self).list@.len(),
            forall|j: int|
                0 <= j < old(self).list@.len() && j != f.index as int ==> final(self).list@[j]
                    == old(self).list@[j],
            final(self).list@[f.index as int].ty == old(self).list@[f.index as int].ty,
            final(self).list@[f.index as int].locals == old(self).list@[f.index as int].locals,
            final(self).list@[f.index as int].exprs == old(self).list@[f.index as int].exprs,
            final(self).list@[f.index as int].entry@ == old(self).list@[f.index as int].entry@.insert(
                index as int,
                e,
            ),
            all_offs(final(self).list@) == all_offs(old(self).list@),
            final(self)@.len() == old(self)@.len(),
            forall|j: int|
                0 <= j < old(self)@.len() && j != f.index as int ==> final(self)@[j] == old(
                    self,
                )@[j],
            final(self)@[f.index as int].ty == old(self)@[f.index as int].ty,
            final(self)@[f.index as int].locals == old(self)@[f.index as int].locals,
            final(self)@[f.index as int].body == instrs_of(
                flat_list(
                    old(self).list@[f.index as int].exprs@,
                    old(self).list@[f.index as int].entry@.insert(index as int, e),
                ),
            ),
    {
        let mut func = self.list.remove(f.index);
        func.insert_in_entry(index, e);
        let ghost fv = func;
        self.list.insert(f.index, func);
        proof {
            assert(self.list@ =~= old(self).list@.update(f.index as int, fv));
            lemma_all_offs_update(old(self).list@, f.index as int, fv);
        }
    }
}

/// An export: a name and the function it makes visible.
#[derive(Debug)]
pub struct Export {
    pub name: Vec<u8>,
    pub item: FunctionId,
}

/// Mathematical content of an export.
pub ghost struct ExportV {
    pub name: Seq<u8>,
    pub item: int,
}

impl View for Export {
    type V = ExportV;

    open spec fn view(&self) -> ExportV {
        ExportV { name: self.name@, item: self.item.index as int }
    }
}

/// The append-only arena of exports.
#[derive(Debug)]
pub struct ModuleExports {
    pub list: Vec<Export>,
}

impl View for ModuleExports {
    type V = Seq<ExportV>;

    open spec fn view(&self) -> Seq<ExportV> {
        self.list@.map_values(|e: Export| e@)
    }
}

impl ModuleExports {
    /// Adds an export of `item` under the UTF-8 bytes of `name` and returns
    /// its fresh identifier.
    pub fn add(&mut self, name: &str, item: FunctionId) -> (r: ExportId)
        ensures
            r.index == old(self)@.len(),
            final(self)@ == old(self)@.push(
                ExportV { name: name.spec_bytes(), item: item.index as int },
            ),
    {
        let id = ExportId { index: self.list.len() };
        let bytes = name.as_bytes_vec();
        self.list.push(Export { name: bytes, item });
        proof {
            assert(final(self)@ =~= old(self)@.push(
                ExportV { name: name.spec_bytes(), item: item.index as int },
            ));
        }
        id
    }

    /// The number of exports in the arena.
    pub fn len(&self) -> (r: usize)
        ensures
            r == self@.len(),
    {
        self.list.len()
    }

    /// Looks up an export by identifier.
    pub fn get(&self, id: ExportId) -> (r: &Export)
        requires
            id.index < self@.len(),
        ensures
            r@ == self@[id.index as int],
    {
        &self.list[id.index]
    }
}

/// Incremental construction of a function body: each call adds a node with a
/// fresh identifier; `finish` hands the draft to a module's function arena.
#[derive(Debug)]
pub struct FunctionBuilder {
    pub exprs: Vec<ExprData>,
}

impl FunctionBuilder {
    /// Well-formed draft: acyclic, and no node carries an original offset,
    /// since a draft was never decoded from bytes.
    pub open spec fn wf(self) -> bool {
        &&& exprs_wf(self.exprs@)
        &&& forall|j: int| 0 <= j < self.exprs@.len() ==> (#[trigger] self.exprs@[j]).offset is None
    }

    /// A fresh, empty draft.
    pub fn new() -> (r: FunctionBuilder)
        ensures
            r.wf(),
            r.exprs@.len() == 0,
    {
        FunctionBuilder { exprs: Vec::new() }
    }

    /// Adds a constant-producing node and returns its fresh identifier.
    pub fn i32_const(&mut self, value: u32) -> (r: ExprId)
        requires
            old(self).wf(),
        ensures
            final(self).wf(),
            r.index == old(self).exprs@.len(),
            final(self).exprs@ == old(self).exprs@.push(
                ExprData { expr: Expr::I32Const(value), offset: None },
            ),
    {
        let id = ExprId { index: self.exprs.len() };
        self.exprs.push(ExprData { expr: Expr::I32Const(value), offset: None });
        id
    }

    /// Adds a discard node owning `operand` and returns its fresh identifier.
    pub fn drop_expr(&mut self, operand: ExprId) -> (r: ExprId)
        requires
            old(self).wf(),
            operand.index < old(self).exprs@.len(),
        ensures
            final(self).wf(),
            r.index == old(self).exprs@.len(),
            final(self).exprs@ == old(self).exprs@.push(
                ExprData { expr: Expr::Drop(operand), offset: None },
            ),
    {
        let id = ExprId { index: self.exprs.len() };
        self.exprs.push(ExprData { expr: Expr::Drop(operand), offset: None });
        id
    }
}

} // verus!
