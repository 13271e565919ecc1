//! Serving requests from an engine.

use vstd::prelude::*;
use crate::engine::KvsEngine;
use crate::protocol::{KvsRequest, KvsResponse, get_response, put_response, rm_response};

verus! {

/// Answers requests from one engine.
pub struct KvServer<E> {
    engine: E,
}

impl<E: KvsEngine> KvServer<E> {
    /// The engine that the server answers from.
    pub closed spec fn engine(self) -> E {
        self.engine
    }

    /// A server that answers from `engine`.
    pub fn new(engine: E) -> (server: KvServer<E>)
        ensures
            server.engine() == engine,
    {
        KvServer { engine }
    }

    /// Carries out one request on the engine and answers with what the
    /// engine returned: its result, or the text of its error, in the
    /// response of the request's kind.
    pub fn handle(&mut self, req: KvsRequest) -> (resp: KvsResponse)
        ensures
            resp.answers(req),
    {
        match req {
            KvsRequest::Get { key } => get_response(self.engine.get(key)),
            KvsRequest::Put { key, value } => put_response(self.engine.set(key, value)),
            KvsRequest::Rm { key } => rm_response(self.engine.remove(key)),
        }
    }

    /// Gives the engine back.
    pub fn into_engine(self) -> (engine: E)
        ensures
            engine == self.engine(),
    {
        self.engine
    }
}

} // verus!
