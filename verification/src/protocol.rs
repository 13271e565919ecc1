//! The messages between a client and a server of the store.

use vstd::prelude::*;
use crate::error::ErrorCode;

verus! {

/// What a client asks of the store.
#[derive(Debug)]
pub enum KvsRequest {
    Put { key: String, value: String },
    Rm { key: String },
    Get { key: String },
}

/// The answer to a request: what the operation returned, or the text of its
/// error.
#[derive(Debug)]
pub enum KvsResponse {
    Put(Result<(), String>),
    Rm(Result<(), String>),
    Get(Result<Option<String>, String>),
}

/// The answer to a `Put` request on its own.
#[derive(Debug)]
pub enum SetResponse {
    Done(()),
    Failed(String),
}

/// The answer to a `Rm` request on its own.
#[derive(Debug)]
pub enum RmResponse {
    Done(()),
    Failed(String),
}

/// The answer to a `Get` request on its own.
#[derive(Debug)]
pub enum GetResponse {
    Done(Option<String>),
    Failed(String),
}

/// The answer to a `Put` request whose operation returned `outcome`.
pub fn put_response(outcome: Result<(), ErrorCode>) -> (resp: KvsResponse)
    ensures
        match outcome {
            Ok(()) => resp == KvsResponse::Put(Ok(())),
            Err(e) => resp matches KvsResponse::Put(Err(text)) && text@ == e.spec_message(),
        },
{
    match outcome {
        Ok(()) => KvsResponse::Put(Ok(())),
        Err(e) => KvsResponse::Put(Err(e.message())),
    }
}

/// The answer to a `Rm` request whose operation returned `outcome`.
pub fn rm_response(outcome: Result<(), ErrorCode>) -> (resp: KvsResponse)
    ensures
        match outcome {
            Ok(()) => resp == KvsResponse::Rm(Ok(())),
            Err(e) => resp matches KvsResponse::Rm(Err(text)) && text@ == e.spec_message(),
        },
{
    match outcome {
        Ok(()) => KvsResponse::Rm(Ok(())),
        Err(e) => KvsResponse::Rm(Err(e.message())),
    }
}

/// The answer to a `Get` request whose operation returned `outcome`.
pub fn get_response(outcome: Result<Option<String>, ErrorCode>) -> (resp: KvsResponse)
    ensures
        match outcome {
            Ok(found) => resp == KvsResponse::Get(Ok(found)),
            Err(e) => resp matches KvsResponse::Get(Err(text)) && text@ == e.spec_message(),
        },
{
    match outcome {
        Ok(found) => KvsResponse::Get(Ok(found)),
        Err(e) => KvsResponse::Get(Err(e.message())),
    }
}

impl KvsResponse {
    /// Whether the response is of the kind that answers `req`.
    pub open spec fn answers(self, req: KvsRequest) -> bool {
        match req {
            KvsRequest::Put { .. } => self is Put,
            KvsRequest::Rm { .. } => self is Rm,
            KvsRequest::Get { .. } => self is Get,
        }
    }
}

} // verus!
