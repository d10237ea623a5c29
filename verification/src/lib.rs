//! Verified core of the language indexers.
pub mod text;
pub mod graph;
pub mod columns;
pub mod wire;
pub mod scip_index;
pub mod scip_reader;
pub mod semanticdb;
pub mod scala;
pub mod json;
pub mod emitter;
pub mod lsif;
pub mod paths;
pub mod lsp;
pub mod kotlin;
pub mod objc_symbol;
pub mod objc_sends;
pub mod order;
pub mod objc_index;
pub mod objc_visit;
pub mod compdb;
pub mod diag;
pub mod run;
pub mod indexers;
pub mod search;
pub mod dotnet;
pub mod version;
pub mod php;
pub mod agp;
pub mod java;
pub mod sbt;
pub mod toolchain;
