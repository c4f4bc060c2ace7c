//! Decision core of a button-driven automation controller: a binding table,
//! a layer stack, a closed opcode set and the executor that ties them together.

pub mod consts;
pub mod opcodes;
pub mod layers;
pub mod bindings;
pub mod microvm;
