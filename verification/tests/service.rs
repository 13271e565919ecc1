//! Requests, responses, the server and the shared queue.

use std::collections::HashMap;

use kvs::engine::KvsEngine;
use kvs::error::ErrorCode;
use kvs::mpmc::channel;
use kvs::protocol::{get_response, put_response, rm_response, KvsRequest, KvsResponse};
use kvs::server::KvServer;

#[derive(Default)]
struct Memory {
    map: HashMap<String, String>,
    broken: bool,
}

impl KvsEngine for Memory {
    fn set(&mut self, key: String, value: String) -> Result<(), ErrorCode> {
        if self.broken {
            return Err(ErrorCode::Io);
        }
        self.map.insert(key, value);
        Ok(())
    }

    fn get(&mut self, key: String) -> Result<Option<String>, ErrorCode> {
        if self.broken {
            return Err(ErrorCode::Corrupted);
        }
        Ok(self.map.get(&key).cloned())
    }

    fn remove(&mut self, key: String) -> Result<(), ErrorCode> {
        self.map.remove(&key).map(|_| ()).ok_or(ErrorCode::KeyNotFound)
    }
}

fn put(key: &str, value: &str) -> KvsRequest {
    KvsRequest::Put { key: key.to_string(), value: value.to_string() }
}

fn get(key: &str) -> KvsRequest {
    KvsRequest::Get { key: key.to_string() }
}

fn rm(key: &str) -> KvsRequest {
    KvsRequest::Rm { key: key.to_string() }
}

#[test]
fn the_server_answers_from_its_engine() {
    let mut server = KvServer::new(Memory::default());
    assert!(matches!(server.handle(put("a", "1")), KvsResponse::Put(Ok(()))));
    assert!(matches!(server.handle(get("a")), KvsResponse::Get(Ok(Some(v))) if v == "1"));
    assert!(matches!(server.handle(get("b")), KvsResponse::Get(Ok(None))));
    assert!(matches!(server.handle(rm("a")), KvsResponse::Rm(Ok(()))));
    assert!(matches!(server.handle(get("a")), KvsResponse::Get(Ok(None))));
    assert_eq!(server.into_engine().map.len(), 0);
}

#[test]
fn errors_are_answered_with_their_text() {
    let mut server = KvServer::new(Memory::default());
    assert!(matches!(server.handle(rm("a")), KvsResponse::Rm(Err(e)) if e == "Key not found"));
    let mut server = KvServer::new(Memory { map: HashMap::new(), broken: true });
    assert!(
        matches!(server.handle(put("a", "1")), KvsResponse::Put(Err(e)) if e == "input/output error")
    );
    assert!(matches!(server.handle(get("a")), KvsResponse::Get(Err(e)) if e == "corrupted record"));
}

#[test]
fn outcomes_become_responses_of_their_kind() {
    assert!(matches!(put_response(Ok(())), KvsResponse::Put(Ok(()))));
    assert!(matches!(put_response(Err(ErrorCode::Internal)), KvsResponse::Put(Err(e)) if e == "internal error"));
    assert!(matches!(rm_response(Ok(())), KvsResponse::Rm(Ok(()))));
    assert!(matches!(rm_response(Err(ErrorCode::KeyNotFound)), KvsResponse::Rm(Err(e)) if e == "Key not found"));
    assert!(matches!(get_response(Ok(Some("v".to_string()))), KvsResponse::Get(Ok(Some(v))) if v == "v"));
    assert!(matches!(get_response(Ok(None)), KvsResponse::Get(Ok(None))));
    assert!(matches!(get_response(Err(ErrorCode::Io)), KvsResponse::Get(Err(e)) if e == "input/output error"));
}

#[test]
fn the_queue_hands_items_out_in_the_order_sent() {
    let (tx, rx) = channel::<u32>();
    assert_eq!(rx.receive(), None);
    tx.send(1);
    tx.send(2);
    let other = tx.clone();
    other.send(3);
    assert_eq!(rx.receive(), Some(1));
    let reader = rx.clone();
    assert_eq!(reader.receive(), Some(2));
    assert_eq!(rx.receive(), Some(3));
    assert_eq!(rx.receive(), None);
    assert_eq!(reader.receive(), None);
}
