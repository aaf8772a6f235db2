//! The contract-execution interface.
//!
//! Contracts are stateful, single-threaded black boxes compiled from
//! user-supplied bytecode; the sandboxed runtime that compiles and runs them
//! is a collaborator. The library defines the interface the node routes
//! through — the execution context, the write intents a contract answers
//! with, and the fault taxonomy — plus the trivial runtime that accepts
//! every write unchanged.

use crate::value::{DbValue, ValueMap};
use vstd::prelude::*;

verus! {

/// A write intent: an insert naming a key, an incoming value, and auxiliary
/// parameters.
#[derive(Debug, PartialEq, Eq)]
pub enum DataAction {
    Insert { key: String, incoming_data: DbValue, params: ValueMap },
}

/// The legacy single-field action used by the plain test runtime.
#[derive(Debug, Clone, PartialEq, Eq)]
pub struct ContractAction {
    pub test: String,
}

/// Everything a contract sees: the triggering write intent, the namespace
/// and contract-space pair, the caller's public-key bytes, and the contract
/// parameters.
#[derive(Debug, PartialEq, Eq)]
pub struct ContractContext {
    pub action: DataAction,
    pub namespace: String,
    pub contract_space: String,
    pub signed_by: Vec<u8>,
    pub contract_params: ValueMap,
}

/// A contract fault: runtime failure, compilation failure, a missing entry
/// point, an unreadable response, or an explicit failure code.
#[derive(Debug)]
pub enum ContractError {
    RuntimeError(String),
    CompilationError(String),
    ContractNotImplemented,
    InvalidResponse,
    ContractFailed(usize),
}

/// A compiled contract: executes one context and answers with write intents.
pub trait Contract {
    fn execute(&mut self, ctx: ContractContext) -> Result<Vec<DataAction>, ContractError>;
}

/// Compiles raw bytecode into a contract of this runtime.
pub trait ContractCompiler {
    type Output: Contract;

    fn create_contract(&self, bytecode: &[u8]) -> Result<Self::Output, ContractError>;
}

/// The runtime that accepts everything: compilation always succeeds and
/// execution answers with exactly the triggering write intent.
#[derive(Debug, Clone, Copy)]
pub struct AcceptContractCompiler;

#[derive(Debug, Clone, Copy)]
pub struct AcceptContract;

impl AcceptContract {
    /// Echoes the triggering intent: the sole resulting action is the one
    /// that came in.
    pub fn run(&mut self, ctx: ContractContext) -> (r: Result<Vec<DataAction>, ContractError>)
        ensures
            r matches Result::Ok(v) && v@.len() == 1 && v@[0] == ctx.action,
    {
        let mut out: Vec<DataAction> = Vec::new();
        out.push(ctx.action);
        Result::Ok(out)
    }
}

impl Contract for AcceptContract {
    fn execute(&mut self, ctx: ContractContext) -> Result<Vec<DataAction>, ContractError> {
        self.run(ctx)
    }
}

impl ContractCompiler for AcceptContractCompiler {
    type Output = AcceptContract;

    fn create_contract(&self, bytecode: &[u8]) -> Result<AcceptContract, ContractError> {
        Result::Ok(AcceptContract)
    }
}

/// The contract runtimes this build can stand up.
#[derive(Debug, Clone, Copy)]
pub enum ContractCompilerType {
    Accept,
}

/// Picks the compiler for the requested runtime kind.
pub fn resolve_contract_runtime(kind: ContractCompilerType) -> (r: AcceptContractCompiler)
{
    match kind {
        ContractCompilerType::Accept => AcceptContractCompiler,
    }
}

} // verus!
