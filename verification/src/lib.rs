//! A copy-and-patch code generator.
pub mod abi;
pub mod a64;
pub mod assemble;
pub mod backend;
pub mod aggregate;
pub mod arith;
pub mod body;
pub mod bytes;
pub mod calls;
pub mod carried;
pub mod codec;
pub mod control;
pub mod copies;
pub mod edges;
pub mod elf;
pub mod elfobj;
pub mod emission;
pub mod emit;
pub mod entry;
pub mod fields;
pub mod flow;
pub mod folding;
pub mod found;
pub mod frames;
pub mod fuse;
pub mod glue;
pub mod grown;
pub mod ir;
pub mod jit;
pub mod keys;
pub mod library;
pub mod lists;
pub mod machine;
pub mod machobj;
pub mod mapping;
pub mod numeric;
pub mod object;
pub mod order;
pub mod owning;
pub mod parts;
pub mod patched;
pub mod pooled;
pub mod prim;
pub mod reach;
pub mod region;
pub mod registers;
pub mod runtime;
pub mod select;
pub mod slots;
pub mod sorted;
pub mod stack;
pub mod stats;
pub mod switches;
pub mod searching;
pub mod sorting;
pub mod text;
pub mod types;
pub mod unit;
pub mod walk;
pub mod written;
pub mod x86;
