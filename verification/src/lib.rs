//! A verified library for decoding a binary program module into an in-memory
//! intermediate representation (IR), mutating that representation
//! (instrumentation, instruction insertion), and re-encoding it into bytes,
//! with an insertion-ordered registry of custom metadata sections and an
//! offset transform that keeps metadata consistent after code is rewritten.

pub mod err;
pub mod leb;
pub mod ir;
pub mod customs;
pub mod config;
pub mod module;
pub mod codec;

pub use config::ModuleConfig;
pub use err::{Error, ErrorKind};
pub use ir::{
    ValType, TypeId, FunctionId, ExprId, ExportId, Expr, Instr, FuncType, LocalFunction,
    FunctionBuilder, ModuleTypes, ModuleFunctions, ModuleExports, Export,
};
pub use customs::{CustomSectionId, RawCustomSection, CodeTransform, ModuleCustomSections};
pub use module::Module;
pub mod laws;
